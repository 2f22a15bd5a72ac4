//! Parser for Nintendo 64 GameShark codes.
//!
//! A code is a list of lines; each line holds two fixed-width uppercase
//! hexadecimal tokens, `TTXXXXXX VVVV`: an operation byte `TT`, a 24-bit
//! address `XXXXXX` and a 16-bit value `VVVV`.

use crate::numfmt::all_hex;
use crate::numfmt::hex_upper_pad;
use crate::numfmt::hex_value;
use crate::numfmt::parse_hex_u32;
use crate::numfmt::push_hex_upper_pad;

use vstd::prelude::*;
use vstd::string::StringExecFns;
use vstd::string::StrSliceExecFns;

verus! {

/// Error parsing a GameShark code
#[derive(Debug, Clone, Copy, PartialEq, Eq, Structural)]
pub enum ParseError {
    /// A token holds something besides hexadecimal digits
    ParseIntError,
    /// The line is not two tokens of eight and four digits
    FormatError,
    /// The operation byte is not one of the six known ones
    CodeTypeError,
}

/// A parsed line of a Nintendo 64 GameShark code
#[derive(Debug, Copy, Clone, PartialEq, Eq, Hash, Structural)]
pub enum CodeLine {
    /// 8-bit write: `80XXXXXX 00YY` writes `YY` to address `XXXXXX`.
    Write8 {
        /// Address of write `XXXXXX`
        addr: u32,
        /// Written value `YY`
        value: u8,
    },
    /// 16-bit write: `81XXXXXX YYYY` writes `YYYY` to address `XXXXXX`.
    Write16 {
        /// Address of write `XXXXXX`
        addr: u32,
        /// Written value `YYYY`
        value: u16,
    },
    /// 8-bit check: `D0XXXXXX 00YY` runs the next line if and only if the
    /// value at address `XXXXXX` is `YY`.
    IfEq8 {
        /// Address of read `XXXXXX`
        addr: u32,
        /// Compared value `YY`
        value: u8,
    },
    /// 16-bit check: `D1XXXXXX YYYY` runs the next line if and only if the
    /// value at address `XXXXXX` is `YYYY`.
    IfEq16 {
        /// Address of read `XXXXXX`
        addr: u32,
        /// Compared value `YYYY`
        value: u16,
    },
    /// 8-bit check: `D2XXXXXX 00YY` runs the next line if and only if the
    /// value at address `XXXXXX` is *not* `YY`.
    IfNotEq8 {
        /// Address of read `XXXXXX`
        addr: u32,
        /// Compared value `YY`
        value: u8,
    },
    /// 16-bit check: `D3XXXXXX YYYY` runs the next line if and only if the
    /// value at address `XXXXXX` is *not* `YYYY`.
    IfNotEq16 {
        /// Address of read `XXXXXX`
        addr: u32,
        /// Compared value `YYYY`
        value: u16,
    },
}

impl CodeLine {
    /// The address this line writes to or reads from.
    pub open spec fn spec_addr(self) -> nat {
        match self {
            CodeLine::Write8 { addr, .. } => addr as nat,
            CodeLine::Write16 { addr, .. } => addr as nat,
            CodeLine::IfEq8 { addr, .. } => addr as nat,
            CodeLine::IfEq16 { addr, .. } => addr as nat,
            CodeLine::IfNotEq8 { addr, .. } => addr as nat,
            CodeLine::IfNotEq16 { addr, .. } => addr as nat,
        }
    }

    /// The value this line writes or compares, widened to 16 bits.
    pub open spec fn spec_value(self) -> nat {
        match self {
            CodeLine::Write8 { value, .. } => value as nat,
            CodeLine::Write16 { value, .. } => value as nat,
            CodeLine::IfEq8 { value, .. } => value as nat,
            CodeLine::IfEq16 { value, .. } => value as nat,
            CodeLine::IfNotEq8 { value, .. } => value as nat,
            CodeLine::IfNotEq16 { value, .. } => value as nat,
        }
    }

    /// Get the address that this code writes to or reads from
    pub fn addr(self) -> (r: u32)
        ensures
            r as nat == self.spec_addr(),
    {
        match self {
            CodeLine::Write8 { addr, .. } => addr,
            CodeLine::Write16 { addr, .. } => addr,
            CodeLine::IfEq8 { addr, .. } => addr,
            CodeLine::IfEq16 { addr, .. } => addr,
            CodeLine::IfNotEq8 { addr, .. } => addr,
            CodeLine::IfNotEq16 { addr, .. } => addr,
        }
    }

    /// Get the value that this code writes or compares
    pub fn value(self) -> (r: u16)
        ensures
            r as nat == self.spec_value(),
    {
        match self {
            CodeLine::Write8 { value, .. } => value as u16,
            CodeLine::Write16 { value, .. } => value,
            CodeLine::IfEq8 { value, .. } => value as u16,
            CodeLine::IfEq16 { value, .. } => value,
            CodeLine::IfNotEq8 { value, .. } => value as u16,
            CodeLine::IfNotEq16 { value, .. } => value,
        }
    }
}

/// The whitespace that separates tokens and is trimmed from lines.
pub open spec fn is_space(c: char) -> bool {
    c == ' ' || c == '\t' || c == '\n' || c == '\r' || c == '\u{b}' || c == '\u{c}'
}

/// Whether `s` is whitespace only.
pub open spec fn all_space(s: Seq<char>) -> bool {
    forall|i: int| 0 <= i < s.len() ==> is_space(#[trigger] s[i])
}

/// Length of the leading run of non-whitespace characters.
pub open spec fn token_len(s: Seq<char>) -> nat
    decreases s.len(),
{
    if s.len() == 0 || is_space(s[0]) {
        0
    } else {
        1 + token_len(s.drop_first())
    }
}

/// The whitespace-separated tokens of `s`, in order.
pub open spec fn s_tokens(s: Seq<char>) -> Seq<Seq<char>>
    decreases s.len(),
    via s_tokens_decreases
{
    if s.len() == 0 {
        Seq::empty()
    } else if is_space(s[0]) {
        s_tokens(s.drop_first())
    } else {
        seq![s.take(token_len(s) as int)] + s_tokens(s.skip(token_len(s) as int))
    }
}

/// A token is no longer than the text it starts.
pub proof fn lemma_token_len_le(s: Seq<char>)
    ensures
        token_len(s) <= s.len(),
    decreases s.len(),
{
    if s.len() > 0 && !is_space(s[0]) {
        lemma_token_len_le(s.drop_first());
    }
}

#[via_fn]
proof fn s_tokens_decreases(s: Seq<char>) {
    if s.len() > 0 && !is_space(s[0]) {
        lemma_token_len_le(s);
        assert(token_len(s) == 1 + token_len(s.drop_first()));
    }
}

/// Parse one line: two tokens of eight and four hexadecimal digits, the
/// first split into operation byte and address.
pub open spec fn s_parse_line(s: Seq<char>) -> Result<CodeLine, ParseError> {
    let toks = s_tokens(s);
    if toks.len() != 2 {
        Err(ParseError::FormatError)
    } else if toks[0].len() != 8 || toks[1].len() != 4 {
        Err(ParseError::FormatError)
    } else if !all_hex(toks[0]) || !all_hex(toks[1]) {
        Err(ParseError::ParseIntError)
    } else {
        let type_addr = hex_value(toks[0]) as u32;
        let value16 = hex_value(toks[1]) as u16;
        let value8 = value16 as u8;
        let code_type = type_addr >> 24;
        let addr = type_addr & 0x00FFFFFF;
        if code_type == 0x80 {
            Ok(CodeLine::Write8 { addr, value: value8 })
        } else if code_type == 0x81 {
            Ok(CodeLine::Write16 { addr, value: value16 })
        } else if code_type == 0xD0 {
            Ok(CodeLine::IfEq8 { addr, value: value8 })
        } else if code_type == 0xD1 {
            Ok(CodeLine::IfEq16 { addr, value: value16 })
        } else if code_type == 0xD2 {
            Ok(CodeLine::IfNotEq8 { addr, value: value8 })
        } else if code_type == 0xD3 {
            Ok(CodeLine::IfNotEq16 { addr, value: value16 })
        } else {
            Err(ParseError::CodeTypeError)
        }
    }
}

/// The canonical text of one line: opcode and address as eight uppercase
/// digits, a space, the value as four uppercase digits.
pub open spec fn s_render_line(cl: CodeLine) -> Seq<char> {
    match cl {
        CodeLine::Write8 { addr, value } => seq!['8', '0'] + hex_upper_pad(addr as nat, 6) + seq![
            ' ',
        ] + hex_upper_pad(value as nat, 4),
        CodeLine::Write16 { addr, value } => seq!['8', '1'] + hex_upper_pad(addr as nat, 6) + seq![
            ' ',
        ] + hex_upper_pad(value as nat, 4),
        CodeLine::IfEq8 { addr, value } => seq!['D', '0'] + hex_upper_pad(addr as nat, 6) + seq![
            ' ',
        ] + hex_upper_pad(value as nat, 4),
        CodeLine::IfEq16 { addr, value } => seq!['D', '1'] + hex_upper_pad(addr as nat, 6) + seq![
            ' ',
        ] + hex_upper_pad(value as nat, 4),
        CodeLine::IfNotEq8 { addr, value } => seq!['D', '2'] + hex_upper_pad(addr as nat, 6)
            + seq![' '] + hex_upper_pad(value as nat, 4),
        CodeLine::IfNotEq16 { addr, value } => seq!['D', '3'] + hex_upper_pad(addr as nat, 6)
            + seq![' '] + hex_upper_pad(value as nat, 4),
    }
}

/// Whether `c` is token-separating whitespace.
fn is_space_char(c: char) -> (r: bool)
    ensures
        r == is_space(c),
{
    c == ' ' || c == '\t' || c == '\n' || c == '\r' || c == '\u{b}' || c == '\u{c}'
}

/// First index at or after `i` that is not whitespace, or the end.
fn skip_spaces(s: &str, i: usize) -> (j: usize)
    requires
        i <= s@.len(),
    ensures
        i <= j <= s@.len(),
        s_tokens(s@.skip(j as int)) == s_tokens(s@.skip(i as int)),
        j == s@.len() || !is_space(s@[j as int]),
    decreases s@.len() - i,
{
    let n = s.unicode_len();
    if i == n {
        return i;
    }
    let c = s.get_char(i);
    if is_space_char(c) {
        proof {
            assert(s@.skip(i as int)[0] == s@[i as int]);
            assert(s@.skip(i as int).drop_first() =~= s@.skip(i as int + 1));
        }
        skip_spaces(s, i + 1)
    } else {
        i
    }
}

/// End of the token starting at `i`: the next whitespace, or the end.
fn scan_token(s: &str, i: usize) -> (j: usize)
    requires
        i <= s@.len(),
    ensures
        i <= j <= s@.len(),
        j as int - i as int == token_len(s@.skip(i as int)),
        j == s@.len() || is_space(s@[j as int]),
    decreases s@.len() - i,
{
    let n = s.unicode_len();
    if i == n {
        proof {
            assert(s@.skip(i as int) =~= Seq::<char>::empty());
        }
        return i;
    }
    let c = s.get_char(i);
    proof {
        assert(s@.skip(i as int)[0] == s@[i as int]);
    }
    if is_space_char(c) {
        i
    } else {
        proof {
            assert(s@.skip(i as int).drop_first() =~= s@.skip(i as int + 1));
        }
        scan_token(s, i + 1)
    }
}

impl CodeLine {
    /// Parse one line of a GameShark code.
    pub fn parse(s: &str) -> (r: Result<CodeLine, ParseError>)
        ensures
            r == s_parse_line(s@),
    {
        let ghost toks = s_tokens(s@);
        let n = s.unicode_len();
        proof {
            assert(s@.skip(0) =~= s@);
        }
        let i0 = skip_spaces(s, 0);
        if i0 == n {
            proof {
                assert(s@.skip(i0 as int) =~= Seq::<char>::empty());
            }
            return Err(ParseError::FormatError);
        }
        let j0 = scan_token(s, i0);
        let ghost tok0 = s@.subrange(i0 as int, j0 as int);
        proof {
            assert(!is_space(s@.skip(i0 as int)[0]));
            assert(s@.skip(i0 as int).take(token_len(s@.skip(i0 as int)) as int) =~= tok0);
            assert(s@.skip(i0 as int).skip(token_len(s@.skip(i0 as int)) as int) =~= s@.skip(
                j0 as int,
            ));
            assert(toks =~= seq![tok0] + s_tokens(s@.skip(j0 as int)));
        }
        let i1 = skip_spaces(s, j0);
        if i1 == n {
            proof {
                assert(s@.skip(i1 as int) =~= Seq::<char>::empty());
                assert(toks.len() == 1);
            }
            return Err(ParseError::FormatError);
        }
        let j1 = scan_token(s, i1);
        let ghost tok1 = s@.subrange(i1 as int, j1 as int);
        proof {
            assert(!is_space(s@.skip(i1 as int)[0]));
            assert(s@.skip(i1 as int).take(token_len(s@.skip(i1 as int)) as int) =~= tok1);
            assert(s@.skip(i1 as int).skip(token_len(s@.skip(i1 as int)) as int) =~= s@.skip(
                j1 as int,
            ));
            assert(toks =~= seq![tok0, tok1] + s_tokens(s@.skip(j1 as int)));
        }
        let i2 = skip_spaces(s, j1);
        if i2 != n {
            proof {
                assert(!is_space(s@.skip(i2 as int)[0]));
                assert(s_tokens(s@.skip(i2 as int)).len() >= 1);
                assert(toks.len() >= 3);
            }
            return Err(ParseError::FormatError);
        }
        proof {
            assert(s@.skip(i2 as int) =~= Seq::<char>::empty());
            assert(toks =~= seq![tok0, tok1]);
            assert(toks[0] == tok0 && toks[1] == tok1);
        }
        if j0 - i0 != 8 || j1 - i1 != 4 {
            return Err(ParseError::FormatError);
        }
        let tok0s = s.substring_char(i0, j0);
        let tok1s = s.substring_char(i1, j1);
        let type_addr = match parse_hex_u32(tok0s) {
            None => {
                return Err(ParseError::ParseIntError);
            },
            Some(ta) => ta,
        };
        let value = match parse_hex_u32(tok1s) {
            None => {
                return Err(ParseError::ParseIntError);
            },
            Some(v) => v,
        };
        proof {
            crate::numfmt::lemma_hex_value_bound(tok1);
            reveal_with_fuel(crate::numfmt::pow16, 5);
            assert(crate::numfmt::pow16(4) == 0x10000);
            assert(hex_value(tok1) < 0x10000);
        }
        let value16 = value as u16;
        let value8 = value16 as u8;
        let code_type = type_addr >> 24;
        let addr = type_addr & 0x00FFFFFF;
        match code_type {
            0x80 => Ok(CodeLine::Write8 { addr, value: value8 }),
            0x81 => Ok(CodeLine::Write16 { addr, value: value16 }),
            0xD0 => Ok(CodeLine::IfEq8 { addr, value: value8 }),
            0xD1 => Ok(CodeLine::IfEq16 { addr, value: value16 }),
            0xD2 => Ok(CodeLine::IfNotEq8 { addr, value: value8 }),
            0xD3 => Ok(CodeLine::IfNotEq16 { addr, value: value16 }),
            _ => Err(ParseError::CodeTypeError),
        }
    }

    /// Render this line as its canonical text.
    pub fn render(self) -> (r: String)
        ensures
            r@ == s_render_line(self),
    {
        let mut out = String::new();
        let (prefix, addr, value): (&'static str, u32, u16) = match self {
            CodeLine::Write8 { addr, value } => ("80", addr, value as u16),
            CodeLine::Write16 { addr, value } => ("81", addr, value),
            CodeLine::IfEq8 { addr, value } => ("D0", addr, value as u16),
            CodeLine::IfEq16 { addr, value } => ("D1", addr, value),
            CodeLine::IfNotEq8 { addr, value } => ("D2", addr, value as u16),
            CodeLine::IfNotEq16 { addr, value } => ("D3", addr, value),
        };
        out.append(prefix);
        push_hex_upper_pad(addr as u64, 6, &mut out);
        out.append(" ");
        push_hex_upper_pad(value as u64, 4, &mut out);
        proof {
            reveal_strlit("80");
            reveal_strlit("81");
            reveal_strlit("D0");
            reveal_strlit("D1");
            reveal_strlit("D2");
            reveal_strlit("D3");
            reveal_strlit(" ");
            assert(out@ =~= s_render_line(self));
        }
        out
    }
}

/// A hexadecimal digit is never whitespace.
proof fn lemma_hex_digit_not_space(c: char)
    requires
        crate::numfmt::is_hex_digit(c),
    ensures
        !is_space(c),
{
}

/// A run of non-whitespace followed by nothing or whitespace is one token.
proof fn lemma_token_len_all(t: Seq<char>, rest: Seq<char>)
    requires
        forall|i: int| 0 <= i < t.len() ==> !is_space(#[trigger] t[i]),
        rest.len() == 0 || is_space(rest[0]),
    ensures
        token_len(t + rest) == t.len(),
    decreases t.len(),
{
    if t.len() == 0 {
        assert(t + rest =~= rest);
    } else {
        assert((t + rest)[0] == t[0]);
        assert((t + rest).drop_first() =~= t.drop_first() + rest);
        lemma_token_len_all(t.drop_first(), rest);
    }
}

/// Splitting off a leading token.
proof fn lemma_tokens_concat(t: Seq<char>, rest: Seq<char>)
    requires
        t.len() > 0,
        forall|i: int| 0 <= i < t.len() ==> !is_space(#[trigger] t[i]),
        rest.len() == 0 || is_space(rest[0]),
    ensures
        s_tokens(t + rest) == seq![t] + s_tokens(rest),
{
    lemma_token_len_all(t, rest);
    let s = t + rest;
    assert(!is_space(s[0]));
    assert(s.take(token_len(s) as int) =~= t);
    assert(s.skip(token_len(s) as int) =~= rest);
}

/// The tokens and token values of a rendered line.
proof fn lemma_render_tokens(op0: char, op1: char, addrv: u32, valuev: u16)
    requires
        crate::numfmt::is_hex_digit(op0),
        crate::numfmt::is_hex_digit(op1),
        addrv < 0x1000000,
    ensures
        ({
            let text = seq![op0, op1] + hex_upper_pad(addrv as nat, 6) + seq![' ']
                + hex_upper_pad(valuev as nat, 4);
            let toks = s_tokens(text);
            toks.len() == 2 && toks[0].len() == 8 && toks[1].len() == 4 && all_hex(toks[0])
                && all_hex(toks[1]) && hex_value(toks[0]) == (crate::numfmt::hex_char_val(op0) * 16
                + crate::numfmt::hex_char_val(op1)) * 0x1000000 + addrv && hex_value(toks[1])
                == valuev
        }),
{
    reveal_with_fuel(crate::numfmt::pow16, 8);
    let op = seq![op0, op1];
    let pad6 = hex_upper_pad(addrv as nat, 6);
    let pad4 = hex_upper_pad(valuev as nat, 4);
    let tok0 = op + pad6;
    let text = seq![op0, op1] + pad6 + seq![' '] + pad4;
    assert(text =~= tok0 + (seq![' '] + pad4));
    crate::numfmt::lemma_hex_upper_pad_value(addrv as nat, 6);
    assert((valuev as nat) < crate::numfmt::pow16(4)) by {
        assert(crate::numfmt::pow16(4) == 0x10000);
    }
    crate::numfmt::lemma_hex_upper_pad_value(valuev as nat, 4);
    assert(hex_value(op) == crate::numfmt::hex_char_val(op0) * 16 + crate::numfmt::hex_char_val(
        op1,
    )) by {
        assert(op.drop_last() =~= seq![op0]);
        assert(seq![op0].drop_last() =~= Seq::<char>::empty());
        assert(op.last() == op1);
        assert(seq![op0].last() == op0);
        assert(hex_value(Seq::<char>::empty()) == 0);
        assert(hex_value(seq![op0]) == crate::numfmt::hex_char_val(op0));
    }
    assert(all_hex(op)) by {
        assert(forall|i: int| 0 <= i < 2 ==> #[trigger] op[i] == (if i == 0 {
            op0
        } else {
            op1
        }));
    }
    assert(all_hex(tok0)) by {
        assert(forall|i: int|
            0 <= i < tok0.len() ==> #[trigger] tok0[i] == (if i < 2 {
                op[i]
            } else {
                pad6[i - 2]
            }));
    }
    crate::numfmt::lemma_hex_value_concat(op, pad6);
    assert(crate::numfmt::pow16(6) == 0x1000000);
    assert(forall|i: int| 0 <= i < tok0.len() ==> !is_space(#[trigger] tok0[i])) by {
        assert(forall|i: int|
            0 <= i < tok0.len() ==> crate::numfmt::is_hex_digit(#[trigger] tok0[i]));
    }
    assert(forall|i: int| 0 <= i < pad4.len() ==> !is_space(#[trigger] pad4[i])) by {
        assert(forall|i: int|
            0 <= i < pad4.len() ==> crate::numfmt::is_hex_digit(#[trigger] pad4[i]));
    }
    lemma_tokens_concat(tok0, seq![' '] + pad4);
    assert((seq![' '] + pad4)[0] == ' ');
    assert((seq![' '] + pad4).drop_first() =~= pad4);
    lemma_tokens_concat(pad4, Seq::<char>::empty());
    assert(pad4 + Seq::<char>::empty() =~= pad4);
    assert(s_tokens(Seq::<char>::empty()) =~= Seq::<Seq<char>>::empty());
    assert(s_tokens(text) =~= seq![tok0, pad4]);
}

/// Round trip: rendering a code line and parsing the text yields the
/// same line again, for any line whose address fits its 24-bit field.
pub proof fn lemma_line_round_trip(cl: CodeLine)
    requires
        cl.spec_addr() < 0x1000000,
    ensures
        s_parse_line(s_render_line(cl)) == Ok::<CodeLine, ParseError>(cl),
{
    let (op0, op1, opv): (char, char, u32) = match cl {
        CodeLine::Write8 { .. } => ('8', '0', 0x80),
        CodeLine::Write16 { .. } => ('8', '1', 0x81),
        CodeLine::IfEq8 { .. } => ('D', '0', 0xD0),
        CodeLine::IfEq16 { .. } => ('D', '1', 0xD1),
        CodeLine::IfNotEq8 { .. } => ('D', '2', 0xD2),
        CodeLine::IfNotEq16 { .. } => ('D', '3', 0xD3),
    };
    let a32: u32 = cl.spec_addr() as u32;
    let v16: u16 = cl.spec_value() as u16;
    assert(crate::numfmt::is_hex_digit(op0) && crate::numfmt::is_hex_digit(op1));
    assert(crate::numfmt::hex_char_val(op0) * 16 + crate::numfmt::hex_char_val(op1) == opv);
    lemma_render_tokens(op0, op1, a32, v16);
    let text = seq![op0, op1] + hex_upper_pad(a32 as nat, 6) + seq![' '] + hex_upper_pad(
        v16 as nat,
        4,
    );
    assert(s_render_line(cl) =~= text);
    let toks = s_tokens(text);
    let ta = hex_value(toks[0]) as u32;
    assert(hex_value(toks[0]) < 0x100000000) by {
        assert(opv * 0x1000000 + a32 < 0x100000000);
    }
    assert(ta == opv * 0x1000000 + a32);
    assert(ta >> 24 == opv && ta & 0x00FFFFFF == a32) by (bit_vector)
        requires
            ta == opv * 0x1000000 + a32,
            a32 < 0x1000000,
            opv <= 0xFF,
    ;
    assert(hex_value(toks[1]) as u16 == v16);
}

/// A parsed Nintendo 64 GameShark code
#[derive(Debug, Clone, PartialEq, Eq, Hash)]
pub struct Code(pub Vec<CodeLine>);

impl View for Code {
    type V = Seq<CodeLine>;

    open spec fn view(&self) -> Seq<CodeLine> {
        self.0@
    }
}

/// Length of the first line: the characters before the first newline.
pub open spec fn line_len(s: Seq<char>) -> nat
    decreases s.len(),
{
    if s.len() == 0 || s[0] == '\n' {
        0
    } else {
        1 + line_len(s.drop_first())
    }
}

/// A line is no longer than the text it starts.
pub proof fn lemma_line_len_le(s: Seq<char>)
    ensures
        line_len(s) <= s.len(),
    decreases s.len(),
{
    if s.len() > 0 && s[0] != '\n' {
        lemma_line_len_le(s.drop_first());
    }
}

/// The lines of `s`, split at newlines; a trailing newline ends the last
/// line rather than opening an empty one.
pub open spec fn s_split_lines(s: Seq<char>) -> Seq<Seq<char>>
    decreases s.len(),
    via s_split_lines_decreases
{
    if s.len() == 0 {
        Seq::empty()
    } else {
        let l = line_len(s);
        if l == s.len() {
            seq![s]
        } else {
            seq![s.take(l as int)] + s_split_lines(s.skip(l as int + 1))
        }
    }
}

#[via_fn]
proof fn s_split_lines_decreases(s: Seq<char>) {
    lemma_line_len_le(s);
}

/// Parse a sequence of lines in order, ignoring blank ones and stopping
/// at the first error.
pub open spec fn s_parse_lines(lines: Seq<Seq<char>>) -> Result<Seq<CodeLine>, ParseError>
    decreases lines.len(),
{
    if lines.len() == 0 {
        Ok(Seq::empty())
    } else if all_space(lines[0]) {
        s_parse_lines(lines.drop_first())
    } else {
        match s_parse_line(lines[0]) {
            Err(e) => Err(e),
            Ok(cl) => match s_parse_lines(lines.drop_first()) {
                Err(e) => Err(e),
                Ok(rest) => Ok(seq![cl] + rest),
            },
        }
    }
}

/// Parse a whole code: its lines, trimmed, blank ones ignored.
pub open spec fn s_parse_code(s: Seq<char>) -> Result<Seq<CodeLine>, ParseError> {
    s_parse_lines(s_split_lines(s))
}

/// First index at or after `i` holding a newline, or the end.
fn scan_newline(s: &str, i: usize) -> (j: usize)
    requires
        i <= s@.len(),
    ensures
        i <= j <= s@.len(),
        j as int - i as int == line_len(s@.skip(i as int)),
        j == s@.len() || s@[j as int] == '\n',
    decreases s@.len() - i,
{
    let n = s.unicode_len();
    if i == n {
        proof {
            assert(s@.skip(i as int) =~= Seq::<char>::empty());
        }
        return i;
    }
    let c = s.get_char(i);
    proof {
        assert(s@.skip(i as int)[0] == s@[i as int]);
    }
    if c == '\n' {
        i
    } else {
        proof {
            assert(s@.skip(i as int).drop_first() =~= s@.skip(i as int + 1));
        }
        scan_newline(s, i + 1)
    }
}

/// Whether the characters in `[i, j)` are all whitespace.
fn all_space_range(s: &str, i: usize, j: usize) -> (r: bool)
    requires
        i <= j <= s@.len(),
    ensures
        r == all_space(s@.subrange(i as int, j as int)),
    decreases j - i,
{
    let ghost sub = s@.subrange(i as int, j as int);
    if i == j {
        proof {
            assert(all_space(sub));
        }
        return true;
    }
    let c = s.get_char(i);
    proof {
        assert(sub[0] == s@[i as int]);
    }
    if is_space_char(c) {
        proof {
            assert(s@.subrange(i as int + 1, j as int) =~= sub.drop_first());
        }
        let r = all_space_range(s, i + 1, j);
        proof {
            if all_space(sub.drop_first()) && is_space(sub[0]) {
                assert forall|k: int| 0 <= k < sub.len() implies is_space(#[trigger] sub[k]) by {
                    if k > 0 {
                        assert(sub[k] == sub.drop_first()[k - 1]);
                    }
                }
            }
            if all_space(sub) {
                assert(forall|k: int|
                    0 <= k < sub.drop_first().len() ==> #[trigger] sub.drop_first()[k] == sub[k
                        + 1]);
            }
        }
        r
    } else {
        false
    }
}

impl Code {
    /// Parse a whole GameShark code: one line per non-blank input line.
    pub fn parse(s: &str) -> (r: Result<Code, ParseError>)
        ensures
            match r {
                Ok(code) => s_parse_code(s@) == Ok::<Seq<CodeLine>, ParseError>(code@),
                Err(e) => s_parse_code(s@) == Err::<Seq<CodeLine>, ParseError>(e),
            },
    {
        let n = s.unicode_len();
        let mut acc: Vec<CodeLine> = Vec::new();
        let mut i: usize = 0;
        proof {
            assert(s@.skip(0) =~= s@);
        }
        while i < n
            invariant
                i <= n,
                n == s@.len(),
                match s_parse_lines(s_split_lines(s@.skip(i as int))) {
                    Ok(rest) => s_parse_code(s@) == Ok::<Seq<CodeLine>, ParseError>(acc@ + rest),
                    Err(e) => s_parse_code(s@) == Err::<Seq<CodeLine>, ParseError>(e),
                },
            decreases n - i,
        {
            let ghost remaining = s@.skip(i as int);
            let j = scan_newline(s, i);
            let ghost line = s@.subrange(i as int, j as int);
            let next = if j < n {
                j + 1
            } else {
                n
            };
            proof {
                assert(remaining.take(line_len(remaining) as int) =~= line);
                if (j as int - i as int) < remaining.len() {
                    assert(remaining.skip(line_len(remaining) as int + 1) =~= s@.skip(
                        next as int,
                    ));
                    assert(s_split_lines(remaining) == seq![line] + s_split_lines(
                        s@.skip(next as int),
                    ));
                } else {
                    assert(remaining =~= line);
                    assert(s@.skip(next as int) =~= Seq::<char>::empty());
                    assert(s_split_lines(remaining) =~= seq![line]);
                    assert(s_split_lines(remaining) =~= seq![line] + s_split_lines(
                        s@.skip(next as int),
                    ));
                }
                assert((seq![line] + s_split_lines(s@.skip(next as int))).drop_first()
                    =~= s_split_lines(s@.skip(next as int)));
            }
            if all_space_range(s, i, j) {
                i = next;
            } else {
                let line_str = s.substring_char(i, j);
                match CodeLine::parse(line_str) {
                    Err(e) => {
                        return Err(e);
                    },
                    Ok(cl) => {
                        let ghost old_acc = acc@;
                        acc.push(cl);
                        proof {
                            match s_parse_lines(s_split_lines(s@.skip(next as int))) {
                                Ok(rest) => {
                                    assert(old_acc + (seq![cl] + rest) =~= acc@ + rest);
                                },
                                Err(_) => {},
                            }
                        }
                        i = next;
                    },
                }
            }
        }
        proof {
            assert(s@.skip(i as int) =~= Seq::<char>::empty());
            assert(s_split_lines(s@.skip(i as int)) =~= Seq::<Seq<char>>::empty());
            assert(acc@ + Seq::<CodeLine>::empty() =~= acc@);
        }
        Ok(Code(acc))
    }
}

/// Size of a value written or read by a GameShark code
#[derive(Debug, Copy, Clone, PartialEq, Eq, Hash, Structural)]
pub enum ValueSize {
    /// 8-bit value
    Bits8,
    /// 16-bit value
    Bits16,
}

impl ValueSize {
    /// The amount of bytes of the value.
    pub open spec fn spec_num_bytes(self) -> nat {
        match self {
            ValueSize::Bits8 => 1,
            ValueSize::Bits16 => 2,
        }
    }

    /// The mask that isolates a value of this size.
    pub open spec fn spec_mask(self) -> u64 {
        match self {
            ValueSize::Bits8 => 0xff,
            ValueSize::Bits16 => 0xffff,
        }
    }

    /// Amount of bytes of the value
    pub fn num_bytes(self) -> (r: u32)
        ensures
            r as nat == self.spec_num_bytes(),
    {
        match self {
            ValueSize::Bits8 => 1,
            ValueSize::Bits16 => 2,
        }
    }

    /// Get the mask that can be bitwise AND'ed with an integer to isolate
    /// a value of this size
    pub fn mask(self) -> (r: u64)
        ensures
            r == self.spec_mask(),
    {
        match self {
            ValueSize::Bits8 => 0xff,
            ValueSize::Bits16 => 0xffff,
        }
    }
}

} // verus!
