use systemf::lexer::LexingError::{MissingClosingBracket, MissingOpeningBracket};
use systemf::lexer::{link_raw_tokens, to_raw_tokens, tokenize, RawToken, Token};

#[test]
fn tokenize_raw() {
    assert_eq!(to_raw_tokens("+[-[]]Hi%"), vec![RawToken::Inc(0), RawToken::Jfw { pos: 1, depth: 0 }, RawToken::Dec(2), RawToken::Jfw { pos: 3, depth: 1 }, RawToken::Jbw { pos: 4, depth: 1 }, RawToken::Jbw { pos: 5, depth: 0 }, RawToken::Sys(8)])
}

#[test]
fn linking() {
    assert_eq!(
        link_raw_tokens(&[RawToken::Inc(0), RawToken::Jfw { pos: 1, depth: 0 }, RawToken::Dec(2), RawToken::Jfw { pos: 3, depth: 1 }, RawToken::Jbw { pos: 4, depth: 1 }, RawToken::Jbw { pos: 5, depth: 0 }, RawToken::Sys(8)]),
        Ok(vec![Token::Inc, Token::Jfw { instruction_ref: 5 }, Token::Dec, Token::Jfw { instruction_ref: 4 }, Token::Jbw { instruction_ref: 3 }, Token::Jbw { instruction_ref: 1 }, Token::Sys ])
    );
    assert_eq!(
        link_raw_tokens(&[RawToken::Inc(0), RawToken::Jfw { pos: 1, depth: 0 }, RawToken::Dec(2), RawToken::Jfw { pos: 3, depth: 1 }, RawToken::Jbw { pos: 4, depth: 1 }, RawToken::Sys(8)]),
        Err(MissingClosingBracket { pos: 1 })
    );
    assert_eq!(
        link_raw_tokens(&[RawToken::Inc(0), RawToken::Jbw { pos: 4, depth: 0 }, RawToken::Sys(8)]),
        Err(MissingOpeningBracket { pos: 4 })
    );
}

#[test]
fn tokenize_program() {
    assert_eq!(tokenize("++--<>>[--%[]]"), Ok(vec![Token::Inc, Token::Inc, Token::Dec, Token::Dec, Token::Ddp, Token::Idp, Token::Idp, Token::Jfw { instruction_ref: 13 }, Token::Dec, Token::Dec, Token::Sys, Token::Jfw { instruction_ref: 12 }, Token::Jbw { instruction_ref: 11 }, Token::Jbw { instruction_ref: 7 }]));
    assert_eq!(tokenize("++[][%"), Err(MissingClosingBracket { pos: 4 }));
    assert_eq!(tokenize("++[]]%"), Err(MissingOpeningBracket { pos: 4 }));
}

#[test]
fn empty_source_gives_empty_program() {
    assert_eq!(tokenize(""), Ok(vec![]));
}

#[test]
fn lone_opening_bracket_fails() {
    assert_eq!(tokenize("["), Err(MissingClosingBracket { pos: 0 }));
}

#[test]
fn lone_closing_bracket_fails() {
    assert_eq!(tokenize("]"), Err(MissingOpeningBracket { pos: 0 }));
}

#[test]
fn closing_before_opening_fails_on_the_closing_one() {
    assert_eq!(tokenize("a][b"), Err(MissingOpeningBracket { pos: 1 }));
}

#[test]
fn comments_do_not_change_the_program() {
    let plain = tokenize("+[->+<]%");
    let commented = tokenize("add one + then [ loop - move > inc + back < ] call % done");
    assert_eq!(plain, commented);
    assert!(plain.is_ok());
}

#[test]
fn every_symbol_maps_to_its_instruction() {
    assert_eq!(
        tokenize("><+-.,%"),
        Ok(vec![Token::Idp, Token::Ddp, Token::Inc, Token::Dec, Token::Out, Token::Acc, Token::Sys])
    );
}

#[test]
fn error_offset_counts_characters_not_bytes() {
    assert_eq!(tokenize("éé["), Err(MissingClosingBracket { pos: 2 }));
}

#[test]
fn brackets_pair_symmetrically() {
    let program = tokenize("[[][[]]]").unwrap();
    for (i, t) in program.iter().enumerate() {
        match *t {
            Token::Jfw { instruction_ref } => {
                assert!(instruction_ref > i);
                assert_eq!(program[instruction_ref], Token::Jbw { instruction_ref: i });
            }
            Token::Jbw { instruction_ref } => {
                assert!(instruction_ref < i);
                assert_eq!(program[instruction_ref], Token::Jfw { instruction_ref: i });
            }
            _ => unreachable!(),
        }
    }
    assert_eq!(program[0], Token::Jfw { instruction_ref: 7 });
    assert_eq!(program[3], Token::Jfw { instruction_ref: 6 });
}

#[test]
fn raw_depth_goes_negative_after_stray_closer() {
    assert_eq!(
        to_raw_tokens("]["),
        vec![RawToken::Jbw { pos: 0, depth: -1 }, RawToken::Jfw { pos: 1, depth: -1 }]
    );
}
