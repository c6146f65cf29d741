use hack_assembler::text::parse_u16;
use hack_assembler::{parse_instruction, Instruction, Parser};

#[test]
fn parse_a_instruction() {
    match parse_instruction("@1234").unwrap() {
        Instruction::A(sym) => assert_eq!(sym, "1234"),
        _ => panic!("error: parse_a_instruction() expected an A instruction"),
    }

    match parse_instruction("@symbol").unwrap() {
        Instruction::A(sym) => assert_eq!(sym, "symbol"),
        _ => panic!("error: parse_a_instruction() expected an A instruction"),
    }
}

#[test]
fn parse_l_instruction() {
    match parse_instruction("(LOOP)").unwrap() {
        Instruction::L(sym) => assert_eq!(sym, "LOOP"),
        _ => panic!("error: parse_l_instruction() expected an L instruction"),
    }
}

#[test]
fn parse_c_instruction() {
    match parse_instruction("D=D+1;JLE").unwrap() {
        Instruction::C(c_instruction) => {
            assert_eq!(c_instruction.dest.as_deref(), Some("D"));
            assert_eq!(c_instruction.comp, "D+1");
            assert_eq!(c_instruction.jump.as_deref(), Some("JLE"));
        }
        _ => panic!("error: parse_c_instruction() expected an C instruction"),
    }

    match parse_instruction("M=M-1").unwrap() {
        Instruction::C(c_instruction) => {
            assert_eq!(c_instruction.dest.as_deref(), Some("M"));
            assert_eq!(c_instruction.comp, "M-1");
            assert_eq!(c_instruction.jump.as_deref(), None);
        }
        _ => panic!("error: parse_c_instruction() expected an C instruction"),
    }
    match parse_instruction("A+1").unwrap() {
        Instruction::C(c_instruction) => {
            assert_eq!(c_instruction.dest.as_deref(), None);
            assert_eq!(c_instruction.comp, "A+1");
            assert_eq!(c_instruction.jump.as_deref(), None);
        }
        _ => panic!("error: parse_c_instruction() expected an C instruction"),
    }

    match parse_instruction("0;JMP").unwrap() {
        Instruction::C(c_instruction) => {
            assert_eq!(c_instruction.dest.as_deref(), None);
            assert_eq!(c_instruction.comp, "0");
            assert_eq!(c_instruction.jump.as_deref(), Some("JMP"));
        }
        _ => panic!("error: parse_c_instruction() expected an C instruction"),
    }
}

#[test]
fn parser() {
    let file = "\
@sum
D=M

// some comment
(LOOP)
A=D+1;JMP
M=D

// another comment
@LOOP
0;JMP";

    let mut parser = Parser::build(file).unwrap();
    let ins = parser.collect_instructions();
    assert_eq!(ins.len(), 7);
}

#[test]
fn parser_yields_instructions_in_order() {
    let mut p = Parser::build("@a\n\n(X)\nD=M").unwrap();
    assert!(matches!(p.next(), Some(Instruction::A(s)) if s == "a"));
    assert!(matches!(p.next(), Some(Instruction::L(s)) if s == "X"));
    assert!(matches!(p.next(), Some(Instruction::C(_))));
    assert!(p.next().is_none());
    assert!(p.next().is_none());
}

#[test]
fn blank_and_comment_lines_hold_no_instruction() {
    assert!(parse_instruction("").is_err());
    assert!(parse_instruction("   \t  ").is_err());
    assert!(parse_instruction("// a comment").is_err());
    assert!(parse_instruction("   // indented comment").is_err());
}

#[test]
fn lines_are_trimmed_before_classification() {
    match parse_instruction("   @sum  \t").unwrap() {
        Instruction::A(sym) => assert_eq!(sym, "sum"),
        _ => panic!("expected an A instruction"),
    }
    match parse_instruction("  D=M  ").unwrap() {
        Instruction::C(c) => {
            assert_eq!(c.dest.as_deref(), Some("D"));
            assert_eq!(c.comp, "M");
        }
        _ => panic!("expected a C instruction"),
    }
}

#[test]
fn label_without_closing_delimiter_keeps_its_name() {
    match parse_instruction("(LOOP").unwrap() {
        Instruction::L(sym) => assert_eq!(sym, "LOOP"),
        _ => panic!("expected an L instruction"),
    }
}

#[test]
fn last_delimiter_wins_in_compute_lines() {
    match parse_instruction("A=D=M;JGT;JMP").unwrap() {
        Instruction::C(c) => {
            assert_eq!(c.dest.as_deref(), Some("A=D"));
            assert_eq!(c.comp, "M;JGT");
            assert_eq!(c.jump.as_deref(), Some("JMP"));
        }
        _ => panic!("expected a C instruction"),
    }
}

#[test]
fn empty_clauses_are_present_but_empty() {
    match parse_instruction("D=").unwrap() {
        Instruction::C(c) => {
            assert_eq!(c.dest.as_deref(), Some("D"));
            assert_eq!(c.comp, "");
            assert_eq!(c.jump.as_deref(), None);
        }
        _ => panic!("expected a C instruction"),
    }
}

#[test]
fn decimal_literals_parse_within_sixteen_bits() {
    assert_eq!(parse_u16("0"), Some(0));
    assert_eq!(parse_u16("1234"), Some(1234));
    assert_eq!(parse_u16("65535"), Some(65535));
    assert_eq!(parse_u16("+12"), Some(12));
    assert_eq!(parse_u16("65536"), None);
    assert_eq!(parse_u16(""), None);
    assert_eq!(parse_u16("+"), None);
    assert_eq!(parse_u16("12a"), None);
    assert_eq!(parse_u16("-1"), None);
}
