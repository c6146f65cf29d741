use hack_assembler::{assemble, comp, dest, jump, resolve_symbol_to_address, AsmError, SymbolTable};

fn words(source: &str) -> Vec<String> {
    assemble(source).unwrap()
}

#[test]
fn dest_bits_follow_letter_membership() {
    assert_eq!(dest(""), "000");
    assert_eq!(dest("M"), "001");
    assert_eq!(dest("D"), "010");
    assert_eq!(dest("A"), "100");
    assert_eq!(dest("MD"), "011");
    assert_eq!(dest("DM"), "011");
    assert_eq!(dest("AMD"), "111");
    assert_eq!(dest("DDD"), "010");
}

#[test]
fn jump_table_is_lenient() {
    assert_eq!(jump("JGT"), "001");
    assert_eq!(jump("JEQ"), "010");
    assert_eq!(jump("JGE"), "011");
    assert_eq!(jump("JLT"), "100");
    assert_eq!(jump("JNE"), "101");
    assert_eq!(jump("JLE"), "110");
    assert_eq!(jump("JMP"), "111");
    assert_eq!(jump(""), "000");
    assert_eq!(jump("JXX"), "000");
}

#[test]
fn comp_table_is_exhaustive_and_strict() {
    assert_eq!(comp("0"), Some("0101010"));
    assert_eq!(comp("1"), Some("0111111"));
    assert_eq!(comp("-1"), Some("0111010"));
    assert_eq!(comp("D"), Some("0001100"));
    assert_eq!(comp("M"), Some("1110000"));
    assert_eq!(comp("D+M"), Some("1000010"));
    assert_eq!(comp("D|A"), Some("0010101"));
    assert_eq!(comp("D@A"), None);
    assert_eq!(comp(""), None);
}

#[test]
fn no_jump_compute_word_is_bit_exact() {
    // comp "0" -> 0101010, no dest -> 000, jump JMP -> 111
    assert_eq!(words("0;JMP"), vec!["1110101010000111"]);
}

#[test]
fn address_word_is_operand_modulo_32768_with_zero_high_bit() {
    assert_eq!(words("@0"), vec!["0000000000000000"]);
    assert_eq!(words("@5"), vec!["0000000000000101"]);
    assert_eq!(words("@32767"), vec!["0111111111111111"]);
    assert_eq!(words("@32768"), vec!["0000000000000000"]);
    assert_eq!(words("@32769"), vec!["0000000000000001"]);
    assert_eq!(words("@65535"), vec!["0111111111111111"]);
}

#[test]
fn dest_order_does_not_change_the_word() {
    assert_eq!(words("MD=D+1"), words("DM=D+1"));
    assert_eq!(words("MD=D+1"), vec!["1110011111011000"]);
}

#[test]
fn assembling_twice_is_deterministic() {
    let src = "@sum\nD=M\n(LOOP)\nA=D+1;JMP\nM=D\n@LOOP\n0;JMP";
    assert_eq!(assemble(src).unwrap(), assemble(src).unwrap());
}

#[test]
fn six_word_scenario_resolves_label_and_variable() {
    let out = words("@sum\nD=M\n(LOOP)\nA=D+1;JMP\nM=D\n@LOOP\n0;JMP");
    assert_eq!(out.len(), 6);
    // sum resolves to 16
    assert_eq!(out[0], "0000000000010000");
    assert_eq!(out[1], "1111110000010000");
    assert_eq!(out[2], "1110011111100111");
    assert_eq!(out[3], "1110001100001000");
    // LOOP resolves to 2
    assert_eq!(out[4], "0000000000000010");
    assert_eq!(out[5], "1110101010000111");
}

#[test]
fn unknown_comp_mnemonic_is_a_fatal_error() {
    match assemble("D@A") {
        Err(AsmError::UnknownComp(c)) => assert_eq!(c, "D@A"),
        _ => panic!("expected an unknown-comp error"),
    }
    match assemble("@1\nD=\n@2") {
        Err(AsmError::UnknownComp(c)) => assert_eq!(c, ""),
        _ => panic!("expected an unknown-comp error"),
    }
}

#[test]
fn label_at_end_resolves_to_instruction_count() {
    let out = words("@END\n@1\n(END)");
    assert_eq!(out, vec!["0000000000000010", "0000000000000001"]);
}

#[test]
fn label_addresses_skip_label_lines() {
    let out = words("(A0)\n@A0\n(A1)\n@A1\n(A2)\n@A2");
    assert_eq!(out, vec!["0000000000000000", "0000000000000001", "0000000000000010"]);
}

#[test]
fn duplicate_label_definition_last_one_wins() {
    let out = words("(L)\n@1\n(L)\n@L");
    assert_eq!(out, vec!["0000000000000001", "0000000000000001"]);
}

#[test]
fn variables_get_consecutive_addresses_in_first_occurrence_order() {
    let out = words("@a\n@b\n@a\n@c");
    assert_eq!(
        out,
        vec![
            "0000000000010000",
            "0000000000010001",
            "0000000000010000",
            "0000000000010010",
        ]
    );
}

#[test]
fn predefined_constants_resolve_without_consuming_variable_slots() {
    let out = words("@x\n@R5\n@SCREEN\n@KBD\n@SP\n@y");
    assert_eq!(
        out,
        vec![
            "0000000000010000",
            "0000000000000101",
            "0100000000000000",
            "0110000000000000",
            "0000000000000000",
            "0000000000010001",
        ]
    );
}

#[test]
fn label_shadows_predefined_use_as_variable() {
    // a symbol already bound, as label or predefined, never becomes a variable
    let out = words("@LOOP\n(LOOP)\n@z");
    assert_eq!(out, vec!["0000000000000001", "0000000000010000"]);
}

#[test]
fn unknown_jump_text_means_no_jump() {
    assert_eq!(words("D;JXX"), vec!["1110001100000000"]);
}

#[test]
fn resolve_symbol_to_address_knows_the_constants() {
    assert_eq!(resolve_symbol_to_address("R0", 99), 0);
    assert_eq!(resolve_symbol_to_address("R15", 99), 15);
    assert_eq!(resolve_symbol_to_address("SP", 99), 0);
    assert_eq!(resolve_symbol_to_address("LCL", 99), 1);
    assert_eq!(resolve_symbol_to_address("ARG", 99), 2);
    assert_eq!(resolve_symbol_to_address("THIS", 99), 3);
    assert_eq!(resolve_symbol_to_address("THAT", 99), 4);
    assert_eq!(resolve_symbol_to_address("SCREEN", 99), 16384);
    assert_eq!(resolve_symbol_to_address("KBD", 99), 24576);
    assert_eq!(resolve_symbol_to_address("loop", 99), 99);
}

#[test]
fn symbol_table_reads_back_what_was_set() {
    let mut t = SymbolTable::new();
    assert_eq!(t.get("R0"), Some(0));
    assert_eq!(t.get("KBD"), Some(24576));
    assert_eq!(t.get("sum"), None);
    assert!(!t.contains("sum"));
    t.set("sum", 16);
    assert_eq!(t.get("sum"), Some(16));
    t.set("sum", 20);
    assert_eq!(t.get("sum"), Some(20));
    assert!(t.contains("R9"));
}
