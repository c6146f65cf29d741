//! Line classification: source lines become address references (`@sym`),
//! label definitions (`(sym)`), or compute instructions (`dest=comp;jump`).

use vstd::prelude::*;
use vstd::string::*;
use crate::text::{split_lines, split_lines_spec, trim_str, trimmed};

verus! {

/// The mathematical shape of a compute instruction: `dest` and `jump` are
/// absent exactly when the source text has no `=` or `;` clause.
pub struct CInstrView {
    pub dest: Option<Seq<char>>,
    pub comp: Seq<char>,
    pub jump: Option<Seq<char>>,
}

/// The mathematical shape of one classified instruction.
pub enum InstrView {
    A(Seq<char>),
    L(Seq<char>),
    C(CInstrView),
}

/// A compute instruction, `[dest=]comp[;jump]`.
#[derive(Debug)]
pub struct CInstruction {
    pub dest: Option<String>,
    pub comp: String,
    pub jump: Option<String>,
}

/// One classified source instruction.
#[derive(Debug)]
pub enum Instruction {
    A(String),
    L(String),
    C(CInstruction),
}

/// The view of an optional string.
pub open spec fn opt_view(o: Option<String>) -> Option<Seq<char>> {
    match o {
        Some(s) => Some(s@),
        None => None,
    }
}

impl View for CInstruction {
    type V = CInstrView;

    open spec fn view(&self) -> CInstrView {
        CInstrView { dest: opt_view(self.dest), comp: self.comp@, jump: opt_view(self.jump) }
    }
}

impl View for Instruction {
    type V = InstrView;

    open spec fn view(&self) -> InstrView {
        match self {
            Instruction::A(s) => InstrView::A(s@),
            Instruction::L(s) => InstrView::L(s@),
            Instruction::C(c) => InstrView::C(c@),
        }
    }
}

/// The index of the last occurrence of `c` in `s`, or -1 if `c` is absent.
pub open spec fn last_pos(s: Seq<char>, c: char) -> int
    decreases s.len(),
{
    if s.len() == 0 {
        -1
    } else if s.last() == c {
        s.len() - 1
    } else {
        last_pos(s.drop_last(), c)
    }
}

/// The label symbol of a trimmed label line `t`: everything after the
/// leading `(`, less a single trailing `)` if one is present.
pub open spec fn label_sym(t: Seq<char>) -> Seq<char> {
    let body = t.skip(1);
    if body.len() > 0 && body.last() == ')' {
        body.drop_last()
    } else {
        body
    }
}

/// The `dest` clause of a trimmed compute line: the text before the last
/// `=`, absent when there is none.
pub open spec fn c_dest(t: Seq<char>) -> Option<Seq<char>> {
    let e = last_pos(t, '=');
    if e >= 0 {
        Some(t.take(e))
    } else {
        None
    }
}

/// The `jump` clause of a trimmed compute line: the text after the last
/// `;`, absent when there is none.
pub open spec fn c_jump(t: Seq<char>) -> Option<Seq<char>> {
    let j = last_pos(t, ';');
    if j >= 0 {
        Some(t.skip(j + 1))
    } else {
        None
    }
}

/// The `comp` field of a trimmed compute line: the text strictly between
/// the last `=` and the last `;`, each bound defaulting to the line's end
/// when its delimiter is absent.  Empty when the delimiters cross.
pub open spec fn c_comp(t: Seq<char>) -> Seq<char> {
    let cs = if last_pos(t, '=') >= 0 {
        last_pos(t, '=') + 1
    } else {
        0
    };
    let ce = if last_pos(t, ';') >= 0 {
        last_pos(t, ';')
    } else {
        t.len() as int
    };
    if cs <= ce {
        t.subrange(cs, ce)
    } else {
        Seq::empty()
    }
}

/// Classifies one source line.  A line that is blank or a comment after
/// trimming yields no instruction; a leading `(` or `@` marks a label
/// definition or an address reference; anything else is a compute
/// instruction.
pub open spec fn classify(line: Seq<char>) -> Option<InstrView> {
    let t = trimmed(line);
    if t.len() == 0 {
        None
    } else if t.len() >= 2 && t[0] == '/' && t[1] == '/' {
        None
    } else if t[0] == '(' {
        Some(InstrView::L(label_sym(t)))
    } else if t[0] == '@' {
        Some(InstrView::A(t.skip(1)))
    } else {
        Some(InstrView::C(CInstrView { dest: c_dest(t), comp: c_comp(t), jump: c_jump(t) }))
    }
}

/// The error of `parse_instruction` on a line that holds no instruction.
#[derive(Debug)]
pub struct ParseError;

/// Classifies one source line, as `classify` describes; lines that hold no
/// instruction are reported as errors so that a stream can drop them.
pub fn parse_instruction(line: &str) -> (r: Result<Instruction, ParseError>)
    ensures
        r matches Ok(i) ==> classify(line@) == Some(i@),
        r is Err <==> classify(line@) is None,
{
    let t = trim_str(line);
    let n = t.unicode_len();
    if n == 0 {
        return Err(ParseError);
    }
    if n >= 2 && t.get_char(0) == '/' && t.get_char(1) == '/' {
        return Err(ParseError);
    }
    let first = t.get_char(0);
    if first == '(' {
        let sym = if n >= 2 && t.get_char(n - 1) == ')' {
            let sub = t.substring_char(1, n - 1);
            proof {
                assert(t@.skip(1).last() == t@[n - 1]);
                assert(t@.skip(1).drop_last() =~= t@.subrange(1, n - 1));
            }
            sub
        } else {
            let sub = t.substring_char(1, n);
            proof {
                if n >= 2 {
                    assert(t@.skip(1).last() == t@[n - 1]);
                }
                assert(t@.skip(1) =~= t@.subrange(1, n as int));
            }
            sub
        };
        proof {
            assert(sym@ =~= label_sym(t@));
        }
        Ok(Instruction::L(sym.to_owned()))
    } else if first == '@' {
        let sym = t.substring_char(1, n);
        proof {
            assert(sym@ =~= t@.skip(1));
        }
        Ok(Instruction::A(sym.to_owned()))
    } else {
        let mut has_eq = false;
        let mut eq_i: usize = 0;
        let mut has_sc = false;
        let mut sc_i: usize = 0;
        let mut k: usize = 0;
        proof {
            assert(t@.take(0) =~= Seq::<char>::empty());
        }
        while k < n
            invariant
                0 <= k <= n,
                n == t@.len(),
                has_eq <==> last_pos(t@.take(k as int), '=') >= 0,
                has_eq ==> eq_i == last_pos(t@.take(k as int), '=') && eq_i < k,
                has_sc <==> last_pos(t@.take(k as int), ';') >= 0,
                has_sc ==> sc_i == last_pos(t@.take(k as int), ';') && sc_i < k,
            decreases n - k,
        {
            let c = t.get_char(k);
            if c == '=' {
                has_eq = true;
                eq_i = k;
            }
            if c == ';' {
                has_sc = true;
                sc_i = k;
            }
            proof {
                assert(t@.take(k + 1).drop_last() =~= t@.take(k as int));
                assert(t@.take(k + 1).last() == t@[k as int]);
            }
            k += 1;
        }
        proof {
            assert(t@.take(n as int) =~= t@);
        }
        let cs: usize = if has_eq {
            eq_i + 1
        } else {
            0
        };
        let ce: usize = if has_sc {
            sc_i
        } else {
            n
        };
        let comp_s = if cs <= ce {
            t.substring_char(cs, ce)
        } else {
            t.substring_char(0, 0)
        };
        proof {
            if cs > ce {
                assert(comp_s@ =~= c_comp(t@));
            }
        }
        let dest_s = if has_eq {
            Some(t.substring_char(0, eq_i).to_owned())
        } else {
            None
        };
        let jump_s = if has_sc {
            Some(t.substring_char(sc_i + 1, n).to_owned())
        } else {
            None
        };
        Ok(Instruction::C(CInstruction { dest: dest_s, comp: comp_s.to_owned(), jump: jump_s }))
    }
}

/// The instructions that the lines of `lines` hold, in order, with lines
/// that hold none dropped.
pub open spec fn instructions_from(lines: Seq<Seq<char>>) -> Seq<InstrView>
    decreases lines.len(),
{
    if lines.len() == 0 {
        Seq::empty()
    } else {
        match classify(lines.first()) {
            Some(i) => seq![i] + instructions_from(lines.skip(1)),
            None => instructions_from(lines.skip(1)),
        }
    }
}

/// The views of a sequence of instructions.
pub open spec fn views_of(s: Seq<Instruction>) -> Seq<InstrView> {
    s.map_values(|i: Instruction| i@)
}

/// A stream of instructions, produced line by line from a source text.
/// Its view is the sequence of source lines not yet consumed.
pub struct Parser {
    lines: Vec<String>,
}

impl View for Parser {
    type V = Seq<Seq<char>>;

    closed spec fn view(&self) -> Seq<Seq<char>> {
        self.lines@.map_values(|l: String| l@)
    }
}

impl Parser {
    /// Splits the source text into the lines the stream will classify.
    pub fn build(file_contents: &str) -> (r: Result<Parser, ParseError>)
        ensures
            r matches Ok(p) ==> p@ == split_lines_spec(file_contents@),
            r is Ok,
    {
        Ok(Parser { lines: split_lines(file_contents) })
    }

    /// Consumes lines until one holds an instruction, and yields it; yields
    /// nothing when no remaining line holds one.
    pub fn next(&mut self) -> (r: Option<Instruction>)
        ensures
            r matches Some(i) ==> instructions_from(old(self)@) == seq![i@]
                + instructions_from(final(self)@),
            r is Some ==> final(self)@.len() < old(self)@.len(),
            r is None ==> instructions_from(old(self)@) == Seq::<InstrView>::empty(),
            r is None ==> final(self)@.len() == 0,
    {
        loop
            invariant
                instructions_from(old(self)@) == instructions_from(self@),
                self@.len() <= old(self)@.len(),
            decreases self.lines@.len(),
        {
            if self.lines.len() == 0 {
                return None;
            }
            let ghost prev = self@;
            let line = self.lines.remove(0);
            proof {
                assert(self@ =~= prev.skip(1));
                assert(line@ == prev.first());
            }
            match parse_instruction(line.as_str()) {
                Ok(i) => {
                    return Some(i);
                },
                Err(_) => {},
            }
        }
    }

    /// Yields every remaining instruction, in source order.
    pub fn collect_instructions(&mut self) -> (r: Vec<Instruction>)
        ensures
            views_of(r@) == instructions_from(old(self)@),
            final(self)@.len() == 0,
    {
        let mut out: Vec<Instruction> = Vec::new();
        proof {
            assert(views_of(out@) =~= Seq::<InstrView>::empty());
        }
        loop
            invariant
                instructions_from(old(self)@) == views_of(out@) + instructions_from(self@),
            decreases self@.len(),
        {
            let ghost sofar = views_of(out@);
            match self.next() {
                Some(i) => {
                    out.push(i);
                    proof {
                        assert(views_of(out@) =~= sofar + seq![i@]);
                        assert(views_of(out@) + instructions_from(self@) =~= instructions_from(
                            old(self)@,
                        ));
                    }
                },
                None => {
                    proof {
                        assert(views_of(out@) + instructions_from(self@) =~= views_of(out@));
                    }
                    return out;
                },
            }
        }
    }
}

} // verus!
