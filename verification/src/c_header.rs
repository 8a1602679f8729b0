//! Parser for one peripheral's register block in a C header file. The block
//! is a struct declaration whose member lines carry the register table as
//! structured comments:
//!
//! - a register entry opens with a comment `/* 0x<offset> : <name> */`;
//! - a reserved entry `/* 0x<offset> reserved */` denotes padding and is
//!   recognized but dropped;
//! - each field row is a member `uint32_t <name> : <width>; /* [<msb>:<lsb>],
//!   <access>, <mask> */`, where a single position `[<bit>]` stands for both
//!   bounds, the width and the mask are informational only, and the access
//!   token comes from a fixed case-sensitive table.
//!
//! Registers come out in file order, each with its fields in file row order,
//! unchanged. The parse is specified as a fold of a per-line step function
//! over the text, and every executable function returns exactly what the
//! specification fold denotes.

use crate::model::{
    AccessMode, BitRange, ExtractError, Field, FieldView, ParseRule, Peripheral, PeripheralView,
    Register, RegisterView, ValidateLevel, field_build_spec, ok_view, opt_bytes_view,
    peripheral_build_spec,
};
use crate::text::{
    comment_body, find_byte, is_digit, lemma_find_byte, parse_dec_spec, parse_hex_spec,
    starts_with, trim, comment_body_exec, find_byte_in, has_prefix, parse_dec, parse_hex,
    strip_prefix, subrange_vec, token_is, trim_slice,
};
use vstd::prelude::*;
use vstd::slice::{slice_subrange, slice_to_vec};
use vstd::string::StringSliceAdditionalSpecFns;

verus! {

/// A register whose header has been seen and whose field rows are still
/// being collected.
pub struct CurReg {
    pub name: Vec<u8>,
    pub offset: u32,
    pub fields: Vec<Field>,
}

pub ghost struct CurRegView {
    pub name: Seq<u8>,
    pub offset: u32,
    pub fields: Seq<FieldView>,
}

impl View for CurReg {
    type V = CurRegView;

    open spec fn view(&self) -> CurRegView {
        CurRegView {
            name: self.name@,
            offset: self.offset,
            fields: self.fields@.map_values(|f: Field| f@),
        }
    }
}

/// Scanner state: the declared struct name (with its four-character type
/// suffix stripped) once seen, the finished registers in file order, and the
/// register still being collected.
pub struct HeaderScan {
    pub struct_name: Option<Vec<u8>>,
    pub regs: Vec<Register>,
    pub cur: Option<CurReg>,
}

pub ghost struct HeaderScanView {
    pub struct_name: Option<Seq<u8>>,
    pub regs: Seq<RegisterView>,
    pub cur: Option<CurRegView>,
}

impl View for HeaderScan {
    type V = HeaderScanView;

    open spec fn view(&self) -> HeaderScanView {
        HeaderScanView {
            struct_name: match self.struct_name {
                Some(n) => Some(n@),
                None => None,
            },
            regs: self.regs@.map_values(|r: Register| r@),
            cur: match self.cur {
                Some(c) => Some(c@),
                None => None,
            },
        }
    }
}

/// The fixed case-sensitive access-token table of header files. Tokens
/// outside it map to nothing: the caller must fail, never guess.
pub open spec fn header_access_of(t: Seq<u8>) -> Option<AccessMode> {
    if t == "RW".spec_bytes() || t == "rw".spec_bytes() || t == "RWAC".spec_bytes() || t
        == "RW1C".spec_bytes() || t == "r/w".spec_bytes() {
        Some(AccessMode::ReadWrite)
    } else if t == "ROC".spec_bytes() || t == "RO".spec_bytes() || t == "r".spec_bytes() || t
        == "R".spec_bytes() {
        Some(AccessMode::ReadOnly)
    } else if t == "w".spec_bytes() || t == "WO".spec_bytes() {
        Some(AccessMode::WriteOnly)
    } else if t == "w1c".spec_bytes() || t == "w1p".spec_bytes() {
        Some(AccessMode::WriteOnce)
    } else if t == "rsvd".spec_bytes() || t == "RSVD".spec_bytes() || t == "None".spec_bytes() {
        Some(AccessMode::Unspecified)
    } else {
        None
    }
}

/// Look an access token up in the header table.
pub fn header_access_lookup(t: &[u8]) -> (r: Option<AccessMode>)
    ensures
        r == header_access_of(t@),
{
    if token_is(t, "RW") || token_is(t, "rw") || token_is(t, "RWAC") || token_is(t, "RW1C")
        || token_is(t, "r/w") {
        Some(AccessMode::ReadWrite)
    } else if token_is(t, "ROC") || token_is(t, "RO") || token_is(t, "r") || token_is(t, "R") {
        Some(AccessMode::ReadOnly)
    } else if token_is(t, "w") || token_is(t, "WO") {
        Some(AccessMode::WriteOnly)
    } else if token_is(t, "w1c") || token_is(t, "w1p") {
        Some(AccessMode::WriteOnce)
    } else if token_is(t, "rsvd") || token_is(t, "RSVD") || token_is(t, "None") {
        Some(AccessMode::Unspecified)
    } else {
        None
    }
}

/// Only the three reserved spellings ever yield `Unspecified`: an
/// unrecognized token is never quietly treated as a reserved field.
pub proof fn lemma_header_access_never_guessed(t: Seq<u8>)
    requires
        t != "rsvd".spec_bytes(),
        t != "RSVD".spec_bytes(),
        t != "None".spec_bytes(),
    ensures
        header_access_of(t) != Some(AccessMode::Unspecified),
{
}

/// A byte that may stand in a C identifier.
pub open spec fn is_ident_byte(b: u8) -> bool {
    is_digit(b) || (65 <= b <= 90) || (97 <= b <= 122) || b == 95
}

/// Length of the identifier at the start of the text.
pub open spec fn ident_len(s: Seq<u8>) -> int
    decreases s.len(),
{
    if s.len() > 0 && is_ident_byte(s[0]) {
        1 + ident_len(s.skip(1))
    } else {
        0
    }
}

/// Whether the byte at `i` may stand in a C identifier.
fn is_ident_at(s: &[u8], i: usize) -> (r: bool)
    requires
        i < s@.len(),
    ensures
        r == is_ident_byte(s@[i as int]),
{
    let b = s[i];
    (b >= 48 && b <= 57) || (b >= 65 && b <= 90) || (b >= 97 && b <= 122) || b == 95
}

/// Measure the identifier at the start of a slice.
pub fn ident_len_exec(s: &[u8]) -> (r: usize)
    ensures
        r as int == ident_len(s@),
        r <= s@.len(),
{
    let n = s.len();
    let mut i: usize = 0;
    proof {
        assert(s@.skip(0) =~= s@);
    }
    while i < n && is_ident_at(s, i)
        invariant
            i <= n,
            n == s@.len(),
            ident_len(s@) == i + ident_len(s@.skip(i as int)),
        decreases n - i,
    {
        proof {
            assert(s@.skip(i as int)[0] == s@[i as int]);
            assert(s@.skip(i as int).skip(1) =~= s@.skip(i as int + 1));
        }
        i += 1;
    }
    proof {
        if i < n {
            assert(s@.skip(i as int)[0] == s@[i as int]);
        }
        assert(ident_len(s@.skip(i as int)) == 0);
    }
    i
}

/// Push the register under collection, if any, onto the finished list.
pub open spec fn h_flush(s: HeaderScanView) -> HeaderScanView {
    match s.cur {
        None => s,
        Some(c) => HeaderScanView {
            struct_name: s.struct_name,
            regs: s.regs.push(
                RegisterView { name: c.name, address_offset: c.offset, fields: c.fields },
            ),
            cur: None,
        },
    }
}

fn flush_scan(st: HeaderScan) -> (r: HeaderScan)
    ensures
        r@ == h_flush(st@),
{
    let HeaderScan { struct_name, mut regs, cur } = st;
    match cur {
        None => HeaderScan { struct_name, regs, cur: None },
        Some(c) => {
            let ghost regs0 = regs@;
            regs.push(Register { name: c.name, address_offset: c.offset, fields: c.fields });
            proof {
                assert(regs@.map_values(|r: Register| r@) =~= regs0.map_values(|r: Register| r@)
                    .push(
                    RegisterView {
                        name: c.name@,
                        address_offset: c.offset,
                        fields: c.fields@.map_values(|f: Field| f@),
                    },
                ));
            }
            HeaderScan { struct_name, regs, cur: None }
        },
    }
}

/// Open a new register: flush the previous one and start collecting fields.
pub open spec fn h_start_reg(s: HeaderScanView, name: Seq<u8>, off: u32) -> HeaderScanView {
    let f = h_flush(s);
    HeaderScanView {
        struct_name: f.struct_name,
        regs: f.regs,
        cur: Some(CurRegView { name, offset: off, fields: Seq::empty() }),
    }
}

/// A comment whose body begins `0x`: either a register header
/// `<offset> : <name>` or a reserved entry `<offset> reserved`.
pub open spec fn h_entry_comment(s: HeaderScanView, rest: Seq<u8>) -> Result<
    HeaderScanView,
    ExtractError,
> {
    match find_byte(rest, 58u8) {
        Some(ci) => {
            let off_txt = trim(rest.subrange(0, ci));
            let rname = trim(rest.skip(ci + 1));
            match parse_hex_spec(off_txt) {
                Some(off) => if rname.len() == 0 {
                    Err(ExtractError::MalformedHeader(ParseRule::RegisterHeader))
                } else {
                    Ok(h_start_reg(s, rname, off))
                },
                None => Err(ExtractError::MalformedHeader(ParseRule::RegisterOffset)),
            }
        },
        None => {
            match find_byte(rest, 32u8) {
                Some(si) => {
                    let off_txt = rest.subrange(0, si);
                    let tail = trim(rest.skip(si + 1));
                    if parse_hex_spec(off_txt) is Some && tail == "reserved".spec_bytes() {
                        Ok(h_flush(s))
                    } else {
                        Err(ExtractError::MalformedHeader(ParseRule::RegisterHeader))
                    }
                },
                None => Err(ExtractError::MalformedHeader(ParseRule::RegisterHeader)),
            }
        },
    }
}

fn entry_comment_step(st: HeaderScan, rest: &[u8]) -> (r: Result<HeaderScan, ExtractError>)
    ensures
        ok_view(r) == h_entry_comment(st@, rest@),
{
    match find_byte_in(rest, 58) {
        Some(ci) => {
            proof {
                lemma_find_byte(rest@, 58u8);
            }
            let off_txt = trim_slice(slice_subrange(rest, 0, ci));
            let rname_sl = slice_subrange(rest, ci + 1, rest.len());
            proof {
                assert(rest@.subrange(ci as int + 1, rest@.len() as int) =~= rest@.skip(
                    ci as int + 1,
                ));
            }
            let rname = trim_slice(rname_sl);
            match parse_hex(off_txt) {
                Some(off) => {
                    if rname.len() == 0 {
                        Err(ExtractError::MalformedHeader(ParseRule::RegisterHeader))
                    } else {
                        let f = flush_scan(st);
                        let c = CurReg {
                            name: slice_to_vec(rname),
                            offset: off,
                            fields: Vec::new(),
                        };
                        proof {
                            assert(c@.fields =~= Seq::<FieldView>::empty());
                        }
                        Ok(HeaderScan { struct_name: f.struct_name, regs: f.regs, cur: Some(c) })
                    }
                },
                None => Err(ExtractError::MalformedHeader(ParseRule::RegisterOffset)),
            }
        },
        None => {
            match find_byte_in(rest, 32) {
                Some(si) => {
                    proof {
                        lemma_find_byte(rest@, 32u8);
                    }
                    let off_txt = slice_subrange(rest, 0, si);
                    let tail_sl = slice_subrange(rest, si + 1, rest.len());
                    proof {
                        assert(rest@.subrange(si as int + 1, rest@.len() as int) =~= rest@.skip(
                            si as int + 1,
                        ));
                    }
                    let tail = trim_slice(tail_sl);
                    if parse_hex(off_txt).is_some() && token_is(tail, "reserved") {
                        Ok(flush_scan(st))
                    } else {
                        Err(ExtractError::MalformedHeader(ParseRule::RegisterHeader))
                    }
                },
                None => Err(ExtractError::MalformedHeader(ParseRule::RegisterHeader)),
            }
        },
    }
}

/// A line that opens with `/*`: a register or reserved entry when its body
/// begins `0x`; any other comment is ignorable prose. Register entries are
/// rejected while no struct declaration has been seen.
pub open spec fn h_comment_step(s: HeaderScanView, line: Seq<u8>) -> Result<
    HeaderScanView,
    ExtractError,
> {
    match comment_body(line) {
        None => Ok(s),
        Some(inner) => {
            if starts_with(inner, "0x".spec_bytes()) {
                if s.struct_name is None {
                    Err(ExtractError::MalformedHeader(ParseRule::Peripheral))
                } else {
                    h_entry_comment(s, inner.skip("0x".spec_bytes().len() as int))
                }
            } else {
                Ok(s)
            }
        },
    }
}

fn comment_step(st: HeaderScan, line: &[u8]) -> (r: Result<HeaderScan, ExtractError>)
    ensures
        ok_view(r) == h_comment_step(st@, line@),
{
    let inner = match comment_body_exec(line) {
        None => {
            return Ok(st);
        },
        Some(v) => v,
    };
    if !has_prefix(inner, "0x") {
        return Ok(st);
    }
    if st.struct_name.is_none() {
        return Err(ExtractError::MalformedHeader(ParseRule::Peripheral));
    }
    let rest = strip_prefix(inner, "0x");
    entry_comment_step(st, rest)
}

/// A line that opens with `struct `: the first named declaration gives the
/// peripheral its name, the trailing four characters (the conventional type
/// suffix) stripped; anonymous inner declarations are ignored.
pub open spec fn h_struct_step(s: HeaderScanView, line: Seq<u8>) -> Result<
    HeaderScanView,
    ExtractError,
> {
    let rest = trim(line.skip("struct ".spec_bytes().len() as int));
    let il = ident_len(rest);
    if il == 0 {
        Ok(s)
    } else if s.struct_name is Some {
        Ok(s)
    } else if il < 4 {
        Err(ExtractError::MalformedHeader(ParseRule::Peripheral))
    } else {
        Ok(
            HeaderScanView {
                struct_name: Some(rest.subrange(0, il - 4)),
                regs: s.regs,
                cur: s.cur,
            },
        )
    }
}

fn struct_step(st: HeaderScan, line: &[u8]) -> (r: Result<HeaderScan, ExtractError>)
    requires
        starts_with(line@, "struct ".spec_bytes()),
    ensures
        ok_view(r) == h_struct_step(st@, line@),
{
    let rest = trim_slice(strip_prefix(line, "struct "));
    let il = ident_len_exec(rest);
    if il == 0 {
        Ok(st)
    } else if st.struct_name.is_some() {
        Ok(st)
    } else if il < 4 {
        Err(ExtractError::MalformedHeader(ParseRule::Peripheral))
    } else {
        let name = subrange_vec(rest, 0, il - 4);
        Ok(HeaderScan { struct_name: Some(name), regs: st.regs, cur: st.cur })
    }
}

/// A bit position: either `<msb>:<lsb>` or a single `<bit>` standing for
/// both bounds.
pub open spec fn parse_bit_pos(t: Seq<u8>) -> Option<(u32, u32)> {
    match find_byte(t, 58u8) {
        Some(pi) => match (parse_dec_spec(trim(t.subrange(0, pi))), parse_dec_spec(
            trim(t.skip(pi + 1)),
        )) {
            (Some(a), Some(b)) => Some((a, b)),
            _ => None,
        },
        None => match parse_dec_spec(trim(t)) {
            Some(v) => Some((v, v)),
            None => None,
        },
    }
}

/// Parse a bit position from a slice.
pub fn parse_bit_pos_exec(t: &[u8]) -> (r: Option<(u32, u32)>)
    ensures
        r == parse_bit_pos(t@),
{
    match find_byte_in(t, 58) {
        Some(pi) => {
            proof {
                lemma_find_byte(t@, 58u8);
            }
            let hi = parse_dec(trim_slice(slice_subrange(t, 0, pi)));
            let lo_sl = slice_subrange(t, pi + 1, t.len());
            proof {
                assert(t@.subrange(pi as int + 1, t@.len() as int) =~= t@.skip(pi as int + 1));
            }
            let lo = parse_dec(trim_slice(lo_sl));
            match (hi, lo) {
                (Some(a), Some(b)) => Some((a, b)),
                _ => None,
            }
        },
        None => {
            match parse_dec(trim_slice(t)) {
                Some(v) => Some((v, v)),
                None => None,
            }
        },
    }
}

/// Map the access token and append the finished field, built under strict
/// validation, to the register under collection.
pub open spec fn h_apply_access(
    sn: Option<Seq<u8>>,
    regs: Seq<RegisterView>,
    c: CurRegView,
    fname: Seq<u8>,
    bits: BitRange,
    acc_txt: Seq<u8>,
) -> Result<HeaderScanView, ExtractError> {
    match header_access_of(acc_txt) {
        None => Err(ExtractError::UnknownAccessMode),
        Some(a) => match field_build_spec(fname, bits, a, None, ValidateLevel::Strict) {
            Err(e) => Err(e),
            Ok(fv) => Ok(
                HeaderScanView {
                    struct_name: sn,
                    regs,
                    cur: Some(
                        CurRegView { name: c.name, offset: c.offset, fields: c.fields.push(fv) },
                    ),
                },
            ),
        },
    }
}

/// An unrecognized access token fails the row, and with it the file, with
/// `UnknownAccessMode`; it is never mapped to some default.
pub proof fn lemma_header_unknown_access_fails(
    sn: Option<Seq<u8>>,
    regs: Seq<RegisterView>,
    c: CurRegView,
    fname: Seq<u8>,
    bits: BitRange,
    acc_txt: Seq<u8>,
)
    requires
        header_access_of(acc_txt) is None,
    ensures
        h_apply_access(sn, regs, c, fname, bits, acc_txt) == Err::<HeaderScanView, ExtractError>(
            ExtractError::UnknownAccessMode,
        ),
{
}

/// A successful field row appends one field at the end of the register
/// under collection and leaves the earlier fields, and their order, alone:
/// header-derived fields stand in file row order.
pub proof fn lemma_header_field_order(
    sn: Option<Seq<u8>>,
    regs: Seq<RegisterView>,
    c: CurRegView,
    fname: Seq<u8>,
    bits: BitRange,
    acc_txt: Seq<u8>,
)
    requires
        h_apply_access(sn, regs, c, fname, bits, acc_txt) is Ok,
    ensures
        h_apply_access(sn, regs, c, fname, bits, acc_txt) matches Ok(s2) && s2.cur matches Some(c2)
            && c2.fields.len() == c.fields.len() + 1 && c2.fields.take(c.fields.len() as int)
            == c.fields,
{
    match h_apply_access(sn, regs, c, fname, bits, acc_txt) {
        Ok(s2) => {
            match s2.cur {
                Some(c2) => {
                    assert(c2.fields.take(c.fields.len() as int) =~= c.fields);
                },
                None => {
                    assert(false);
                },
            }
        },
        Err(_) => {
            assert(false);
        },
    }
}

/// The comment of a field row: `[<pos>], <access>, <mask>`, the mask kept
/// only as informational text and ignored.
pub open spec fn h_field_comment(
    sn: Option<Seq<u8>>,
    regs: Seq<RegisterView>,
    c: CurRegView,
    fname: Seq<u8>,
    cmt: Seq<u8>,
) -> Result<HeaderScanView, ExtractError> {
    match comment_body(cmt) {
        None => Err(ExtractError::MalformedHeader(ParseRule::FieldRow)),
        Some(inner) => {
            if inner.len() == 0 || inner[0] != 91u8 {
                Err(ExtractError::MalformedHeader(ParseRule::FieldRow))
            } else {
                match find_byte(inner, 93u8) {
                    None => Err(ExtractError::MalformedHeader(ParseRule::FieldRow)),
                    Some(ri) => {
                        match parse_bit_pos(inner.subrange(1, ri)) {
                            None => Err(ExtractError::MalformedHeader(ParseRule::FieldPosition)),
                            Some((msb, lsb)) => {
                                let after_br = trim(inner.skip(ri + 1));
                                if after_br.len() == 0 || after_br[0] != 44u8 {
                                    Err(ExtractError::MalformedHeader(ParseRule::FieldRow))
                                } else {
                                    let rest2 = after_br.skip(1);
                                    match find_byte(rest2, 44u8) {
                                        None => Err(
                                            ExtractError::MalformedHeader(ParseRule::FieldRow),
                                        ),
                                        Some(mi) => h_apply_access(
                                            sn,
                                            regs,
                                            c,
                                            fname,
                                            BitRange { msb, lsb },
                                            trim(rest2.subrange(0, mi)),
                                        ),
                                    }
                                }
                            },
                        }
                    },
                }
            }
        },
    }
}

fn field_comment_step(
    struct_name: Option<Vec<u8>>,
    regs: Vec<Register>,
    c: CurReg,
    fname: &[u8],
    cmt: &[u8],
) -> (r: Result<HeaderScan, ExtractError>)
    ensures
        ok_view(r) == h_field_comment(
            opt_bytes_view(struct_name),
            regs@.map_values(|x: Register| x@),
            c@,
            fname@,
            cmt@,
        ),
{
    let inner = match comment_body_exec(cmt) {
        None => {
            return Err(ExtractError::MalformedHeader(ParseRule::FieldRow));
        },
        Some(v) => v,
    };
    if inner.len() == 0 || inner[0] != 91 {
        return Err(ExtractError::MalformedHeader(ParseRule::FieldRow));
    }
    let ri = match find_byte_in(inner, 93) {
        None => {
            return Err(ExtractError::MalformedHeader(ParseRule::FieldRow));
        },
        Some(ri) => ri,
    };
    proof {
        lemma_find_byte(inner@, 93u8);
        assert(inner@[ri as int] == 93u8);
        assert(ri >= 1);
    }
    let pos = parse_bit_pos_exec(slice_subrange(inner, 1, ri));
    let (msb, lsb) = match pos {
        None => {
            return Err(ExtractError::MalformedHeader(ParseRule::FieldPosition));
        },
        Some(p) => p,
    };
    let after_sl = slice_subrange(inner, ri + 1, inner.len());
    proof {
        assert(inner@.subrange(ri as int + 1, inner@.len() as int) =~= inner@.skip(ri as int + 1));
    }
    let after_br = trim_slice(after_sl);
    if after_br.len() == 0 || after_br[0] != 44 {
        return Err(ExtractError::MalformedHeader(ParseRule::FieldRow));
    }
    let rest2 = slice_subrange(after_br, 1, after_br.len());
    proof {
        assert(after_br@.subrange(1, after_br@.len() as int) =~= after_br@.skip(1));
    }
    let mi = match find_byte_in(rest2, 44) {
        None => {
            return Err(ExtractError::MalformedHeader(ParseRule::FieldRow));
        },
        Some(mi) => mi,
    };
    proof {
        lemma_find_byte(rest2@, 44u8);
    }
    let acc_txt = trim_slice(slice_subrange(rest2, 0, mi));
    match header_access_lookup(acc_txt) {
        None => Err(ExtractError::UnknownAccessMode),
        Some(a) => {
            match Field::build(
                slice_to_vec(fname),
                BitRange { msb, lsb },
                a,
                None,
                ValidateLevel::Strict,
            ) {
                Err(e) => Err(e),
                Ok(f) => {
                    let CurReg { name, offset, mut fields } = c;
                    let ghost fields0 = fields@;
                    let ghost fv = f@;
                    fields.push(f);
                    proof {
                        assert(fields@.map_values(|x: Field| x@) =~= fields0.map_values(
                            |x: Field| x@,
                        ).push(fv));
                    }
                    Ok(
                        HeaderScan {
                            struct_name,
                            regs,
                            cur: Some(CurReg { name, offset, fields }),
                        },
                    )
                },
            }
        },
    }
}

/// A member line's text after the first `:`: the informational bit width,
/// the `;`, then the field comment.
pub open spec fn h_field_row(
    sn: Option<Seq<u8>>,
    regs: Seq<RegisterView>,
    c: CurRegView,
    rest: Seq<u8>,
    ci: int,
) -> Result<HeaderScanView, ExtractError> {
    let fname = trim(rest.subrange(0, ci));
    if fname.len() == 0 {
        Err(ExtractError::MalformedHeader(ParseRule::FieldRow))
    } else {
        let after = rest.skip(ci + 1);
        match find_byte(after, 59u8) {
            None => Err(ExtractError::MalformedHeader(ParseRule::FieldRow)),
            Some(si) => {
                match parse_dec_spec(trim(after.subrange(0, si))) {
                    None => Err(ExtractError::MalformedHeader(ParseRule::FieldWidth)),
                    Some(w) => if w > 255 {
                        Err(ExtractError::MalformedHeader(ParseRule::FieldWidth))
                    } else {
                        h_field_comment(sn, regs, c, fname, trim(after.skip(si + 1)))
                    },
                }
            },
        }
    }
}

#[verifier::rlimit(100)]
fn field_row_step(
    struct_name: Option<Vec<u8>>,
    regs: Vec<Register>,
    c: CurReg,
    rest: &[u8],
    ci: usize,
) -> (r: Result<HeaderScan, ExtractError>)
    requires
        ci < rest@.len(),
    ensures
        ok_view(r) == h_field_row(
            opt_bytes_view(struct_name),
            regs@.map_values(|x: Register| x@),
            c@,
            rest@,
            ci as int,
        ),
{
    let rl = rest.len();
    let fname = trim_slice(slice_subrange(rest, 0, ci));
    if fname.len() == 0 {
        return Err(ExtractError::MalformedHeader(ParseRule::FieldRow));
    }
    let after = slice_subrange(rest, ci + 1, rl);
    proof {
        assert(rest@.subrange(ci as int + 1, rest@.len() as int) =~= rest@.skip(ci as int + 1));
    }
    match find_byte_in(after, 59) {
        None => Err(ExtractError::MalformedHeader(ParseRule::FieldRow)),
        Some(si) => {
            proof {
                lemma_find_byte(after@, 59u8);
            }
            match parse_dec(trim_slice(slice_subrange(after, 0, si))) {
                None => Err(ExtractError::MalformedHeader(ParseRule::FieldWidth)),
                Some(w) => {
                    if w > 255 {
                        Err(ExtractError::MalformedHeader(ParseRule::FieldWidth))
                    } else {
                        let cmt_sl = slice_subrange(after, si + 1, after.len());
                        proof {
                            assert(after@.subrange(si as int + 1, after@.len() as int)
                                =~= after@.skip(si as int + 1));
                        }
                        let cmt = trim_slice(cmt_sl);
                        field_comment_step(struct_name, regs, c, fname, cmt)
                    }
                },
            }
        },
    }
}

/// A line that opens with `uint32_t `: a field row when a `:` follows (the
/// plain word member of the same union carries no `:` and is ignored). A
/// field row outside any register entry is a grammar error.
pub open spec fn h_field_intro(s: HeaderScanView, line: Seq<u8>) -> Result<
    HeaderScanView,
    ExtractError,
> {
    let rest = trim(line.skip("uint32_t ".spec_bytes().len() as int));
    match find_byte(rest, 58u8) {
        None => Ok(s),
        Some(ci) => match s.cur {
            None => Err(ExtractError::MalformedHeader(ParseRule::Registers)),
            Some(c) => h_field_row(s.struct_name, s.regs, c, rest, ci),
        },
    }
}

fn field_intro_step(st: HeaderScan, line: &[u8]) -> (r: Result<HeaderScan, ExtractError>)
    requires
        starts_with(line@, "uint32_t ".spec_bytes()),
    ensures
        ok_view(r) == h_field_intro(st@, line@),
{
    let rest = trim_slice(strip_prefix(line, "uint32_t "));
    match find_byte_in(rest, 58) {
        None => Ok(st),
        Some(ci) => {
            proof {
                lemma_find_byte(rest@, 58u8);
            }
            let HeaderScan { struct_name, regs, cur } = st;
            match cur {
                None => Err(ExtractError::MalformedHeader(ParseRule::Registers)),
                Some(c) => field_row_step(struct_name, regs, c, rest, ci),
            }
        },
    }
}

/// One trimmed line of the header: a comment, a struct declaration, a
/// member row, or ignorable scaffolding.
pub open spec fn h_line_step(s: HeaderScanView, line: Seq<u8>) -> Result<
    HeaderScanView,
    ExtractError,
> {
    if line.len() == 0 {
        Ok(s)
    } else if starts_with(line, "/*".spec_bytes()) {
        h_comment_step(s, line)
    } else if starts_with(line, "struct ".spec_bytes()) {
        h_struct_step(s, line)
    } else if starts_with(line, "uint32_t ".spec_bytes()) {
        h_field_intro(s, line)
    } else {
        Ok(s)
    }
}

fn header_line_step(st: HeaderScan, line: &[u8]) -> (r: Result<HeaderScan, ExtractError>)
    ensures
        ok_view(r) == h_line_step(st@, line@),
{
    if line.len() == 0 {
        Ok(st)
    } else if has_prefix(line, "/*") {
        comment_step(st, line)
    } else if has_prefix(line, "struct ") {
        struct_step(st, line)
    } else if has_prefix(line, "uint32_t ") {
        field_intro_step(st, line)
    } else {
        Ok(st)
    }
}

/// The whole scan: state so far, or the error that ended it, plus the
/// bytes of the line still being gathered.
pub ghost struct HMachine {
    pub st: Result<HeaderScanView, ExtractError>,
    pub buf: Seq<u8>,
}

pub open spec fn h_line_result(
    st: Result<HeaderScanView, ExtractError>,
    raw: Seq<u8>,
) -> Result<HeaderScanView, ExtractError> {
    match st {
        Err(e) => Err(e),
        Ok(s) => h_line_step(s, trim(raw)),
    }
}

pub open spec fn h_byte_step(m: HMachine, b: u8) -> HMachine {
    if b == 10 {
        HMachine { st: h_line_result(m.st, m.buf), buf: Seq::empty() }
    } else {
        HMachine { st: m.st, buf: m.buf.push(b) }
    }
}

pub open spec fn h_fold(m: HMachine, s: Seq<u8>) -> HMachine
    decreases s.len(),
{
    if s.len() == 0 {
        m
    } else {
        h_fold(h_byte_step(m, s[0]), s.skip(1))
    }
}

pub open spec fn h_init() -> HMachine {
    HMachine {
        st: Ok(HeaderScanView { struct_name: None, regs: Seq::empty(), cur: None }),
        buf: Seq::empty(),
    }
}

pub open spec fn h_finalize(m: HMachine) -> Result<Seq<RegisterView>, ExtractError> {
    match h_line_result(m.st, m.buf) {
        Err(e) => Err(e),
        Ok(s1) => {
            let s2 = h_flush(s1);
            if s2.struct_name is None {
                Err(ExtractError::MalformedHeader(ParseRule::Peripheral))
            } else {
                Ok(s2.regs)
            }
        },
    }
}

/// What parsing one header file's text yields: its registers in file order,
/// each with its fields in file row order, or the error that ended the scan.
pub open spec fn registers_from_header_spec(text: Seq<u8>) -> Result<
    Seq<RegisterView>,
    ExtractError,
> {
    h_finalize(h_fold(h_init(), text))
}

/// Once a line has failed, the rest of the text cannot change the outcome.
proof fn lemma_h_fold_err(m: HMachine, s: Seq<u8>)
    requires
        m.st is Err,
    ensures
        h_fold(m, s).st == m.st,
    decreases s.len(),
{
    if s.len() > 0 {
        lemma_h_fold_err(h_byte_step(m, s[0]), s.skip(1));
    }
}

/// Extract the register listing of one peripheral's header text.
pub fn registers_from_c_header(text: &[u8]) -> (r: Result<Vec<Register>, ExtractError>)
    ensures
        match r {
            Ok(v) => registers_from_header_spec(text@) == Ok::<Seq<RegisterView>, ExtractError>(
                v@.map_values(|x: Register| x@),
            ),
            Err(e) => registers_from_header_spec(text@) == Err::<Seq<RegisterView>, ExtractError>(
                e,
            ),
        },
{
    let mut scan = HeaderScan { struct_name: None, regs: Vec::new(), cur: None };
    let mut buf: Vec<u8> = Vec::new();
    proof {
        assert(scan@.regs =~= Seq::<RegisterView>::empty());
        assert(h_init() == HMachine { st: Ok::<HeaderScanView, ExtractError>(scan@), buf: buf@ });
        assert(text@.skip(0) =~= text@);
    }
    let n = text.len();
    let mut i: usize = 0;
    while i < n
        invariant
            i <= n,
            n == text@.len(),
            h_fold(h_init(), text@) == h_fold(
                HMachine { st: Ok::<HeaderScanView, ExtractError>(scan@), buf: buf@ },
                text@.skip(i as int),
            ),
        decreases n - i,
    {
        let b = text[i];
        proof {
            assert(text@.skip(i as int)[0] == text@[i as int]);
            assert(text@.skip(i as int).skip(1) =~= text@.skip(i as int + 1));
        }
        if b == 10 {
            let ghost mach = HMachine {
                st: Ok::<HeaderScanView, ExtractError>(scan@),
                buf: buf@,
            };
            let line = trim_slice(buf.as_slice());
            match header_line_step(scan, line) {
                Ok(s2) => {
                    proof {
                        assert(h_byte_step(mach, 10) == HMachine {
                            st: Ok::<HeaderScanView, ExtractError>(s2@),
                            buf: Seq::<u8>::empty(),
                        });
                    }
                    scan = s2;
                    buf.clear();
                },
                Err(e) => {
                    proof {
                        let m2 = h_byte_step(mach, 10);
                        assert(m2.st == Err::<HeaderScanView, ExtractError>(e));
                        lemma_h_fold_err(m2, text@.skip(i as int + 1));
                    }
                    return Err(e);
                },
            }
        } else {
            buf.push(b);
        }
        i += 1;
    }
    proof {
        assert(text@.skip(n as int) =~= Seq::<u8>::empty());
    }
    let line = trim_slice(buf.as_slice());
    match header_line_step(scan, line) {
        Err(e) => Err(e),
        Ok(s2) => {
            let f = flush_scan(s2);
            let HeaderScan { struct_name, regs, cur: _ } = f;
            match struct_name {
                None => Err(ExtractError::MalformedHeader(ParseRule::Peripheral)),
                Some(_) => Ok(regs),
            }
        },
    }
}

/// What extracting a whole peripheral from a header yields: the parsed
/// registers wrapped under the caller's name and base address, built under
/// weak validation.
pub open spec fn peripheral_from_header_spec(
    text: Seq<u8>,
    base_address: u64,
    name: Seq<u8>,
) -> Result<PeripheralView, ExtractError> {
    match registers_from_header_spec(text) {
        Ok(regs) => peripheral_build_spec(name, base_address, regs, ValidateLevel::Weak),
        Err(e) => Err(e),
    }
}

/// Extract one peripheral from a header file's text.
pub fn peripheral_from_c_header(text: &[u8], base_address: u64, name: Vec<u8>) -> (r: Result<
    Peripheral,
    ExtractError,
>)
    ensures
        ok_view(r) == peripheral_from_header_spec(text@, base_address, name@),
{
    match registers_from_c_header(text) {
        Ok(regs) => {
            match Peripheral::build(name, base_address, regs, ValidateLevel::Weak) {
                Ok(p) => Ok(p),
                Err(e) => Err(e),
            }
        },
        Err(e) => Err(e),
    }
}

/// Parse a further header and append its registers onto an existing
/// peripheral, in fragment order; on any parse error the peripheral is left
/// untouched.
pub fn append_registers_from_c_header(text: &[u8], peripheral: &mut Peripheral) -> (r: Result<
    (),
    ExtractError,
>)
    ensures
        match registers_from_header_spec(text@) {
            Ok(regs) => r == Ok::<(), ExtractError>(())
                && final(peripheral)@.name == old(peripheral)@.name
                && final(peripheral)@.base_address == old(peripheral)@.base_address
                && final(peripheral)@.registers == old(peripheral)@.registers + regs,
            Err(e) => r == Err::<(), ExtractError>(e) && *final(peripheral) == *old(peripheral),
        },
{
    match registers_from_c_header(text) {
        Ok(mut regs) => {
            let ghost regs0 = peripheral.registers@;
            let ghost fragment = regs@;
            peripheral.registers.append(&mut regs);
            proof {
                assert(peripheral.registers@.map_values(|x: Register| x@) =~= regs0.map_values(
                    |x: Register| x@,
                ) + fragment.map_values(|x: Register| x@));
            }
            Ok(())
        },
        Err(e) => Err(e),
    }
}

} // verus!
