use brainfuck::{is_well_formed, parse, Opcode, ParseError};

#[test]
fn empty_source_is_an_empty_program() {
    assert_eq!(parse(b""), Ok(vec![]));
}

#[test]
fn each_instruction_byte_has_its_opcode() {
    assert_eq!(
        parse(b"><+-.,"),
        Ok(vec![
            Opcode::IncPtr,
            Opcode::DecPtr,
            Opcode::IncVal,
            Opcode::DecVal,
            Opcode::Output,
            Opcode::Input,
        ])
    );
}

#[test]
fn a_pair_of_brackets_point_at_each_other() {
    assert_eq!(parse(b"[]"), Ok(vec![Opcode::LoopStart(1), Opcode::LoopEnd(0)]));
}

#[test]
fn loop_targets_are_indices_into_the_opcodes() {
    assert_eq!(
        parse(b"+[-]."),
        Ok(vec![
            Opcode::IncVal,
            Opcode::LoopStart(3),
            Opcode::DecVal,
            Opcode::LoopEnd(1),
            Opcode::Output,
        ])
    );
}

#[test]
fn nested_brackets_pair_inside_out() {
    assert_eq!(
        parse(b"[[][]]"),
        Ok(vec![
            Opcode::LoopStart(5),
            Opcode::LoopStart(2),
            Opcode::LoopEnd(1),
            Opcode::LoopStart(4),
            Opcode::LoopEnd(3),
            Opcode::LoopEnd(0),
        ])
    );
}

#[test]
fn targets_count_instructions_not_source_bytes() {
    assert_eq!(
        parse(b"a [ b + c ] d"),
        Ok(vec![Opcode::LoopStart(2), Opcode::IncVal, Opcode::LoopEnd(0)])
    );
}

#[test]
fn every_bracket_in_a_parsed_program_is_paired_both_ways() {
    let code = parse(b"++[>[-]<[>+<-]>>[[-]]<<-]").unwrap();
    assert!(is_well_formed(&code));
    for (i, op) in code.iter().enumerate() {
        match *op {
            Opcode::LoopStart(end) => {
                assert!(end > i);
                assert_eq!(code[end], Opcode::LoopEnd(i));
            }
            Opcode::LoopEnd(start) => {
                assert!(start < i);
                assert_eq!(code[start], Opcode::LoopStart(i));
            }
            _ => {}
        }
    }
}

#[test]
fn deep_nesting_is_resolved() {
    let depth = 1000;
    let mut source = vec![b'['; depth];
    source.extend(vec![b']'; depth]);
    let code = parse(&source).unwrap();
    assert_eq!(code.len(), 2 * depth);
    for i in 0..depth {
        assert_eq!(code[i], Opcode::LoopStart(2 * depth - 1 - i));
        assert_eq!(code[2 * depth - 1 - i], Opcode::LoopEnd(i));
    }
}

#[test]
fn bytes_that_are_no_instruction_change_nothing() {
    let plain = parse(b"+[->+<]").unwrap();
    assert_eq!(parse(b"+ [ - > + < ]\n").unwrap(), plain);
    assert_eq!(parse(b"add: +[->+<] done").unwrap(), plain);
    assert_eq!(parse(b"+[\t-\r\n>+<\0]").unwrap(), plain);
}

#[test]
fn removing_one_ignored_byte_changes_nothing() {
    let source: Vec<u8> = b"+x[-y]z.".to_vec();
    let whole = parse(&source);
    for i in 0..source.len() {
        if !b"><+-.,[]".contains(&source[i]) {
            let mut shorter = source.clone();
            shorter.remove(i);
            assert_eq!(parse(&shorter), whole);
        }
    }
}

#[test]
fn non_ascii_and_invalid_utf8_are_ignored() {
    assert_eq!(
        parse(&[0xff, b'+', 0xc3, 0x28, b'.', 0x80]),
        Ok(vec![Opcode::IncVal, Opcode::Output])
    );
}

#[test]
fn a_source_of_comments_alone_is_an_empty_program() {
    assert_eq!(parse(b"nothing to see here\n"), Ok(vec![]));
}

#[test]
fn parsing_twice_gives_the_same_opcodes() {
    let source = b"++++++++[>++++[>++>+++>+++>+<<<<-]>+>+>->>+[<]<-]";
    assert_eq!(parse(source), parse(source));
}

#[test]
fn a_close_bracket_alone_is_unmatched() {
    assert_eq!(parse(b"]"), Err(ParseError::UnmatchedCloseBracket));
}

#[test]
fn a_close_bracket_before_its_open_bracket_is_unmatched() {
    assert_eq!(parse(b"]["), Err(ParseError::UnmatchedCloseBracket));
    assert_eq!(parse(b"[]]["), Err(ParseError::UnmatchedCloseBracket));
}

#[test]
fn an_open_bracket_alone_is_unmatched() {
    assert_eq!(parse(b"["), Err(ParseError::UnmatchedOpenBracket));
}

#[test]
fn an_open_bracket_left_open_at_the_end_is_unmatched() {
    assert_eq!(parse(b"[[]"), Err(ParseError::UnmatchedOpenBracket));
    assert_eq!(parse(b"+[>+[-]"), Err(ParseError::UnmatchedOpenBracket));
}

#[test]
fn an_unmatched_close_bracket_wins_over_an_open_one() {
    assert_eq!(parse(b"[]][["), Err(ParseError::UnmatchedCloseBracket));
    assert_eq!(parse(b"[ ] ] ["), Err(ParseError::UnmatchedCloseBracket));
}

#[test]
fn well_formedness_accepts_what_the_parser_builds() {
    assert!(is_well_formed(&[]));
    assert!(is_well_formed(&[Opcode::IncVal, Opcode::Output]));
    assert!(is_well_formed(&[Opcode::LoopStart(1), Opcode::LoopEnd(0)]));
}

#[test]
fn well_formedness_rejects_broken_pairs() {
    assert!(!is_well_formed(&[Opcode::LoopStart(0)]));
    assert!(!is_well_formed(&[Opcode::LoopStart(1)]));
    assert!(!is_well_formed(&[Opcode::LoopEnd(0)]));
    assert!(!is_well_formed(&[Opcode::LoopStart(1), Opcode::IncVal]));
    assert!(!is_well_formed(&[Opcode::LoopStart(1), Opcode::LoopEnd(1)]));
    assert!(!is_well_formed(&[Opcode::LoopEnd(1), Opcode::LoopStart(0)]));
    assert!(!is_well_formed(&[Opcode::LoopStart(usize::MAX), Opcode::LoopEnd(0)]));
    assert!(!is_well_formed(&[
        Opcode::LoopStart(2),
        Opcode::LoopStart(2),
        Opcode::LoopEnd(0),
    ]));
}
