use sm64gs2pc::gameshark::Code;
use sm64gs2pc::gameshark::CodeLine;
use sm64gs2pc::gameshark::ParseError;

#[test]
fn test_parse_code() {
    // A published level-reset cheat, with ragged whitespace.
    let code = "8129CE9C 2400\n\
                8129CEC0 2400\n\
                D033AFA1 0020\n\
                8033B21E 0008\n\
                \n\
                D033AFA1  0020  \n\
                8133B262 0000 \n \
                D033AFA1 0020\n \
                8133B218   0000\n\
                D033AFA1 0020 \n\
                8033B248  0002\n\
                D033AFA1 0020 \n\
                81361414 0005 ";
    assert_eq!(
        Code::parse(code).unwrap(),
        Code(vec![
            CodeLine::Write16 {
                addr: 0x0029CE9C,
                value: 0x2400,
            },
            CodeLine::Write16 {
                addr: 0x0029CEC0,
                value: 0x2400,
            },
            CodeLine::IfEq8 {
                addr: 0x0033AFA1,
                value: 0x20,
            },
            CodeLine::Write8 {
                addr: 0x0033B21E,
                value: 0x08,
            },
            CodeLine::IfEq8 {
                addr: 0x0033AFA1,
                value: 0x20,
            },
            CodeLine::Write16 {
                addr: 0x0033B262,
                value: 0x00,
            },
            CodeLine::IfEq8 {
                addr: 0x0033AFA1,
                value: 0x20,
            },
            CodeLine::Write16 {
                addr: 0x0033B218,
                value: 0x00,
            },
            CodeLine::IfEq8 {
                addr: 0x0033AFA1,
                value: 0x20,
            },
            CodeLine::Write8 {
                addr: 0x0033B248,
                value: 0x02,
            },
            CodeLine::IfEq8 {
                addr: 0x0033AFA1,
                value: 0x20,
            },
            CodeLine::Write16 {
                addr: 0x00361414,
                value: 0x05,
            }
        ])
    );
}

#[test]
fn test_parse_codes() {
    let codes = "8129CE9C 2400\n\
                 8129CEC0 2400\n\
                 D033AFA1 0020\n\
                 8033B21E 0008\n\
                 D033AFA1 0020\n\
                 8133B262 0000\n\
                 D033AFA1 0020\n\
                 8133B218 0000\n\
                 D033AFA1 0020\n\
                 8033B248 0002\n\
                 D033AFA1 0020\n\
                 81361414 0005";
    assert_eq!(
        Code::parse(codes).unwrap(),
        Code(vec![
            CodeLine::Write16 {
                addr: 0x0029CE9C,
                value: 0x2400,
            },
            CodeLine::Write16 {
                addr: 0x0029CEC0,
                value: 0x2400,
            },
            CodeLine::IfEq8 {
                addr: 0x0033AFA1,
                value: 0x20,
            },
            CodeLine::Write8 {
                addr: 0x0033B21E,
                value: 0x08,
            },
            CodeLine::IfEq8 {
                addr: 0x0033AFA1,
                value: 0x20,
            },
            CodeLine::Write16 {
                addr: 0x0033B262,
                value: 0x00,
            },
            CodeLine::IfEq8 {
                addr: 0x0033AFA1,
                value: 0x20,
            },
            CodeLine::Write16 {
                addr: 0x0033B218,
                value: 0x00,
            },
            CodeLine::IfEq8 {
                addr: 0x0033AFA1,
                value: 0x20,
            },
            CodeLine::Write8 {
                addr: 0x0033B248,
                value: 0x02,
            },
            CodeLine::IfEq8 {
                addr: 0x0033AFA1,
                value: 0x20,
            },
            CodeLine::Write16 {
                addr: 0x00361414,
                value: 0x05,
            }
        ])
    );
}

#[test]
fn parse_then_render_is_canonical() {
    // Parsing a cheat-line token pair and re-rendering it yields
    // byte-identical uppercase text.
    let line = CodeLine::parse("8133B176 0015").unwrap();
    assert_eq!(line.render(), "8133B176 0015");
    // Lowercase input parses to the same line and renders uppercase.
    let lower = CodeLine::parse("8133b176 0015").unwrap();
    assert_eq!(lower, line);
    assert_eq!(lower.render(), "8133B176 0015");
    // Every operation round-trips.
    for text in [
        "80ABCDEF 0012",
        "81ABCDEF 1234",
        "D0ABCDEF 0012",
        "D1ABCDEF 1234",
        "D2ABCDEF 0012",
        "D3ABCDEF 1234",
    ] {
        assert_eq!(CodeLine::parse(text).unwrap().render(), text);
    }
}

#[test]
fn parse_errors() {
    // Wrong token count
    assert_eq!(CodeLine::parse("8133B176"), Err(ParseError::FormatError));
    assert_eq!(
        CodeLine::parse("8133B176 0015 0016"),
        Err(ParseError::FormatError)
    );
    // Wrong token lengths
    assert_eq!(CodeLine::parse("8133B17 0015"), Err(ParseError::FormatError));
    assert_eq!(CodeLine::parse("8133B176 015"), Err(ParseError::FormatError));
    // Non-hexadecimal content
    assert_eq!(
        CodeLine::parse("8133B17G 0015"),
        Err(ParseError::ParseIntError)
    );
    assert_eq!(
        CodeLine::parse("8133B176 001+"),
        Err(ParseError::ParseIntError)
    );
    // Unknown operation byte
    assert_eq!(
        CodeLine::parse("9133B176 0015"),
        Err(ParseError::CodeTypeError)
    );
    // A failing line fails the whole code.
    assert_eq!(
        Code::parse("8133B176 0015\nzz"),
        Err(ParseError::FormatError)
    );
    // Blank lines are ignored; order is preserved.
    let code = Code::parse("\n  \n8033B248 0002\n\n81361414 0005\n").unwrap();
    assert_eq!(
        code,
        Code(vec![
            CodeLine::Write8 {
                addr: 0x0033B248,
                value: 0x02,
            },
            CodeLine::Write16 {
                addr: 0x00361414,
                value: 0x05,
            },
        ])
    );
}

#[test]
fn line_getters() {
    let line = CodeLine::parse("D133B262 0042").unwrap();
    assert_eq!(line.addr(), 0x0033B262);
    assert_eq!(line.value(), 0x42);
}
