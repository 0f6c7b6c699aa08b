use uplc::ast::{Constant, DeBruijn, Name, NamedDeBruijn, Program, Term, Unique};
use uplc::bits::{Decoder, Encoder, FlatError};
use uplc::builtins::DefaultFunction;
use uplc::flat::{
    decode_constant, decode_constant_tag, decode_term_tag, encode_constant, encode_constant_tag,
    encode_term_tag, safe_encode_bits,
};

fn name(text: &str, unique: i64) -> Name {
    Name { text: text.to_string(), unique: Unique::new(unique) }
}

fn decoder(bytes: &[u8]) -> Decoder {
    let mut bits = Vec::new();
    for b in bytes {
        for i in (0..8).rev() {
            bits.push((b >> i) & 1 == 1);
        }
    }
    Decoder { bits, pos: 0 }
}

#[test]
fn flat_encode_integer() {
    let program = Program::<Name> {
        version: (11, 22, 33),
        term: Term::Constant(Constant::Integer(11)),
    };

    let bytes = program.to_flat().unwrap();

    assert_eq!(
        bytes,
        vec![0b00001011, 0b00010110, 0b00100001, 0b01001000, 0b00000101, 0b10000001]
    )
}

#[test]
fn flat_decode_integer() {
    let flat_encoded = vec![
        0b00001011, 0b00010110, 0b00100001, 0b01001000, 0b00000101, 0b10000001,
    ];

    let expected_program = Program {
        version: (11, 22, 33),
        term: Term::Constant(Constant::Integer(11)),
    };

    let actual_program: Program<Name> = Program::unflat(&flat_encoded).unwrap();

    assert_eq!(actual_program, expected_program)
}

#[test]
fn flat_hex_of_integer_program() {
    let program = Program::<Name> {
        version: (11, 22, 33),
        term: Term::Constant(Constant::Integer(11)),
    };
    assert_eq!(program.flat_hex().unwrap(), "0b1621480581");
}

#[test]
fn hex_round_trip_named_program() {
    let program = Program::<Name> {
        version: (1, 0, 0),
        term: Term::Lambda {
            parameter_name: name("x", 3),
            body: Box::new(Term::Apply {
                function: Box::new(Term::Var(name("x", 3))),
                argument: Box::new(Term::Constant(Constant::String("héllo".to_string()))),
            }),
        },
    };
    let hex = program.flat_hex().unwrap();
    let back: Program<Name> = Program::from_hex(&hex).unwrap();
    assert_eq!(back, program);
    let upper: Program<Name> = Program::from_hex(&hex.to_uppercase()).unwrap();
    assert_eq!(upper, program);
}

#[test]
fn from_hex_rejects_bad_text() {
    assert_eq!(Program::<Name>::from_hex("0g").unwrap_err(), FlatError::InvalidHex);
    assert_eq!(Program::<Name>::from_hex("abc").unwrap_err(), FlatError::InvalidHex);
}

#[test]
fn named_round_trip_every_variant() {
    let long: Vec<u8> = (0..300u32).map(|i| (i % 256) as u8).collect();
    let program = Program::<Name> {
        version: (1, 2, 300),
        term: Term::Apply {
            function: Box::new(Term::Lambda {
                parameter_name: name("arg", -7),
                body: Box::new(Term::Delay(Box::new(Term::Force(Box::new(Term::Var(name(
                    "arg", -7,
                ))))))),
            }),
            argument: Box::new(Term::Apply {
                function: Box::new(Term::Builtin(DefaultFunction::MkNilPairData)),
                argument: Box::new(Term::Apply {
                    function: Box::new(Term::Constant(Constant::ByteString(long))),
                    argument: Box::new(Term::Apply {
                        function: Box::new(Term::Constant(Constant::Bool(true))),
                        argument: Box::new(Term::Apply {
                            function: Box::new(Term::Constant(Constant::Unit)),
                            argument: Box::new(Term::Apply {
                                function: Box::new(Term::Constant(Constant::Integer(i64::MIN))),
                                argument: Box::new(Term::Error),
                            }),
                        }),
                    }),
                }),
            }),
        },
    };
    let bytes = program.to_flat().unwrap();
    let back: Program<Name> = Program::unflat(&bytes).unwrap();
    assert_eq!(back, program);
}

#[test]
fn debruijn_lambda_binder_takes_no_bits() {
    let program = Program::<DeBruijn> {
        version: (1, 0, 0),
        term: Term::Lambda {
            parameter_name: DeBruijn::new(0),
            body: Box::new(Term::Var(DeBruijn::new(1))),
        },
    };
    let bytes = program.to_flat().unwrap();
    assert_eq!(bytes, vec![1, 0, 0, 0b00100000, 0b00000001, 0b00000001]);
    let back: Program<DeBruijn> = Program::unflat(&bytes).unwrap();
    assert_eq!(back, program);
}

#[test]
fn debruijn_binder_index_reads_back_as_zero() {
    let program = Program::<DeBruijn> {
        version: (1, 0, 0),
        term: Term::Lambda {
            parameter_name: DeBruijn::new(5),
            body: Box::new(Term::Var(DeBruijn::new(9))),
        },
    };
    let back: Program<DeBruijn> = Program::unflat(&program.to_flat().unwrap()).unwrap();
    assert_eq!(
        back.term,
        Term::Lambda {
            parameter_name: DeBruijn::new(0),
            body: Box::new(Term::Var(DeBruijn::new(9))),
        }
    );
}

#[test]
fn named_debruijn_binder_keeps_text_only() {
    let nd = |t: &str, i: u64| NamedDeBruijn { text: t.to_string(), index: DeBruijn::new(i) };
    let program = Program::<NamedDeBruijn> {
        version: (0, 0, 1),
        term: Term::Lambda {
            parameter_name: nd("y", 4),
            body: Box::new(Term::Var(nd("y", 1))),
        },
    };
    let back: Program<NamedDeBruijn> = Program::unflat(&program.to_flat().unwrap()).unwrap();
    assert_eq!(
        back.term,
        Term::Lambda {
            parameter_name: nd("y", 0),
            body: Box::new(Term::Var(nd("y", 1))),
        }
    );
}

#[test]
fn char_is_written_as_untagged_bytes() {
    let program = Program::<Name> {
        version: (0, 0, 0),
        term: Term::Constant(Constant::Char('a')),
    };
    assert_eq!(
        program.to_flat().unwrap(),
        vec![0, 0, 0, 0b01000001, 0x01, 0x61, 0x00, 0x01]
    );
    let wide = Program::<Name> {
        version: (0, 0, 0),
        term: Term::Constant(Constant::Char('é')),
    };
    assert_eq!(
        wide.to_flat().unwrap(),
        vec![0, 0, 0, 0b01000001, 0x02, 0xC3, 0xA9, 0x00, 0x01]
    );
}

#[test]
fn safe_encode_bits_overflow_writes_nothing() {
    let mut e = Encoder::new();
    assert_eq!(
        safe_encode_bits(7, 128, &mut e),
        Err(FlatError::Overflow { value: 128, width: 7 })
    );
    assert_eq!(
        safe_encode_bits(4, 16, &mut e),
        Err(FlatError::Overflow { value: 16, width: 4 })
    );
    assert!(e.bits.is_empty());
    assert_eq!(safe_encode_bits(7, 127, &mut e), Ok(()));
    assert_eq!(e.bits, vec![true; 7]);
}

#[test]
fn tag_encoders_check_width() {
    let mut e = Encoder::new();
    assert_eq!(encode_term_tag(16, &mut e), Err(FlatError::Overflow { value: 16, width: 4 }));
    assert_eq!(encode_constant_tag(20, &mut e), Err(FlatError::Overflow { value: 20, width: 4 }));
    assert_eq!(encode_constant(16, &mut e), Err(FlatError::Overflow { value: 16, width: 4 }));
    assert!(e.bits.is_empty());
    assert_eq!(encode_term_tag(7, &mut e), Ok(()));
    assert_eq!(e.bits, vec![false, true, true, true]);
}

#[test]
fn constant_tag_list_round_trip() {
    let mut e = Encoder::new();
    encode_constant(4, &mut e).unwrap();
    assert_eq!(e.bits, vec![true, false, true, false, false, false]);
    let mut d = Decoder { bits: e.bits.clone(), pos: 0 };
    assert_eq!(decode_constant(&mut d), Ok(4));
    assert_eq!(d.pos, 6);
}

#[test]
fn tag_decoders_read_four_bits() {
    let mut d = decoder(&[0b10110110]);
    assert_eq!(decode_term_tag(&mut d), Ok(11));
    assert_eq!(decode_constant_tag(&mut d), Ok(6));
    assert_eq!(decode_term_tag(&mut d), Err(FlatError::StreamExhausted));
}

#[test]
fn unknown_term_tag_is_rejected() {
    let r = Program::<Name>::unflat(&[0, 0, 0, 0b10000000]);
    assert_eq!(r.unwrap_err(), FlatError::UnknownTermTag(8));
}

#[test]
fn unknown_constant_tag_is_rejected() {
    let r = Program::<Name>::unflat(&[0, 0, 0, 0b01001010, 0b10000000]);
    assert_eq!(r.unwrap_err(), FlatError::UnknownConstantTag(5));
}

#[test]
fn two_constant_tags_are_malformed() {
    let r = Program::<Name>::unflat(&[0, 0, 0, 0b01001000, 0b01000000, 0]);
    assert_eq!(r.unwrap_err(), FlatError::MalformedConstantTag);
    let mut d = decoder(&[0]);
    assert_eq!(decode_constant(&mut d), Err(FlatError::MalformedConstantTag));
}

#[test]
fn unknown_builtin_is_rejected() {
    let r = Program::<Name>::unflat(&[0, 0, 0, 0b01111111, 0b11100001]);
    assert_eq!(r.unwrap_err(), FlatError::UnknownBuiltin(127));
}

#[test]
fn builtin_codes() {
    assert_eq!(DefaultFunction::AddInteger.to_code(), 0);
    assert_eq!(DefaultFunction::MkNilPairData.to_code(), 50);
    assert_eq!(DefaultFunction::from_code(26), Some(DefaultFunction::IfThenElse));
    assert_eq!(DefaultFunction::from_code(51), None);
}

#[test]
fn empty_input_is_exhausted() {
    assert_eq!(Program::<Name>::unflat(&[]).unwrap_err(), FlatError::StreamExhausted);
}

#[test]
fn oversized_version_overflows() {
    let mut bytes = vec![0xFF; 10];
    bytes.push(0x01);
    assert_eq!(Program::<Name>::unflat(&bytes).unwrap_err(), FlatError::IntegerOverflow);
}

#[test]
fn invalid_utf8_name_is_rejected() {
    let r = Program::<Name>::unflat(&[0, 0, 0, 0b00000001, 0x01, 0xFF, 0x00]);
    assert_eq!(r.unwrap_err(), FlatError::InvalidUtf8);
}

#[test]
fn misaligned_byte_array_is_rejected() {
    let r = Program::<Name>::unflat(&[0, 0, 0, 0b00001000]);
    assert_eq!(r.unwrap_err(), FlatError::NotByteAligned);
}

#[test]
fn word_and_integer_forms() {
    let mut e = Encoder::new();
    e.word(300);
    let mut d = Decoder { bits: e.bits.clone(), pos: 0 };
    assert_eq!(e.bits.len(), 16);
    assert_eq!(d.word(), Ok(300));
    let mut e = Encoder::new();
    e.integer(-1);
    e.integer(i64::MAX);
    let mut d = Decoder { bits: e.bits.clone(), pos: 0 };
    assert_eq!(e.bits[..8].to_vec(), vec![false, false, false, false, false, false, false, true]);
    assert_eq!(d.integer(), Ok(-1));
    assert_eq!(d.integer(), Ok(i64::MAX));
}

#[test]
fn decode_text_is_utf8() {
    let mut e = Encoder::new();
    e.text("ünï");
    let mut d = Decoder { bits: e.bits.clone(), pos: 0 };
    assert_eq!(d.text(), Ok("ünï".to_string()));
}
