//! Parser for reStructuredText register-description documents. A document is
//! a sequence of register blocks; each block has a title line, an address
//! line `Address: <address>`, and a table whose rows are drawn with `|` and
//! `+` characters:
//!
//! - the address is empty (meaning zero), a hexadecimal literal with an
//!   optional `0x` prefix, or a width-prefixed literal whose hexadecimal part
//!   follows a `'` separator and its radix letter;
//! - the first register's address establishes the peripheral's inferred base
//!   address; every register's offset is its address minus that base;
//! - each table's first row is a column-header row and is skipped; a row of
//!   five cells is a field row (bits, name, access, reset, description, the
//!   reset parsed over and discarded); a row of one cell continues the
//!   previous field's description, newline-joined;
//! - after a register's rows are collected its fields are reversed: tables
//!   list fields high bit first, the canonical model expects the opposite.
//!
//! One known textual irregularity, a `|` used as prose inside a field
//! description, is substituted with its spelled-out form before parsing.
//! The parse is specified as a fold of a per-line step function over the
//! substituted text, and every executable function returns exactly what the
//! specification fold denotes.

use crate::model::{
    AccessMode, BitRange, ExtractError, Field, FieldView, ParseRule, Peripheral, PeripheralView,
    Register, RegisterView, ValidateLevel, field_build_spec, ok_view, peripheral_build_spec,
};
use crate::text::{
    find_byte, lemma_find_byte, parse_dec_spec, parse_hex_spec, split_on, starts_with, trim,
    find_byte_in, has_prefix, parse_dec, parse_hex, slice_eq, split_on_exec, strip_prefix,
    token_is, trim_slice,
};
use vstd::prelude::*;
use vstd::slice::{slice_subrange, slice_to_vec};
use vstd::string::StringSliceAdditionalSpecFns;

verus! {

/// Every occurrence of `pat` in `s` replaced by `rep`, scanning left to
/// right without re-examining replaced text.
pub open spec fn replace_all(s: Seq<u8>, pat: Seq<u8>, rep: Seq<u8>) -> Seq<u8>
    decreases s.len(),
{
    if s.len() == 0 {
        s
    } else if pat.len() > 0 && starts_with(s, pat) {
        rep + replace_all(s.skip(pat.len() as int), pat, rep)
    } else {
        s.subrange(0, 1) + replace_all(s.skip(1), pat, rep)
    }
}

/// Replace every occurrence of a pattern in a byte slice.
pub fn replace_all_exec(s: &[u8], pat: &str, rep: &str) -> (r: Vec<u8>)
    ensures
        r@ == replace_all(s@, pat.spec_bytes(), rep.spec_bytes()),
{
    let patb = pat.as_bytes();
    let repb = rep.as_bytes();
    let pl = patb.len();
    let n = s.len();
    let mut out: Vec<u8> = Vec::new();
    let mut i: usize = 0;
    proof {
        assert(s@.skip(0) =~= s@);
        assert(out@ + replace_all(s@, pat.spec_bytes(), rep.spec_bytes()) =~= replace_all(
            s@,
            pat.spec_bytes(),
            rep.spec_bytes(),
        ));
    }
    while i < n
        invariant
            i <= n,
            n == s@.len(),
            pl == pat.spec_bytes().len(),
            patb@ == pat.spec_bytes(),
            repb@ == rep.spec_bytes(),
            replace_all(s@, pat.spec_bytes(), rep.spec_bytes()) == out@ + replace_all(
                s@.skip(i as int),
                pat.spec_bytes(),
                rep.spec_bytes(),
            ),
        decreases n - i,
    {
        let ghost rest = s@.skip(i as int);
        if pl > 0 && pl <= n - i && slice_eq(slice_subrange(s, i, i + pl), patb) {
            proof {
                assert(rest.subrange(0, pl as int) =~= s@.subrange(i as int, i as int + pl));
                assert(starts_with(rest, pat.spec_bytes()));
                assert(rest.skip(pl as int) =~= s@.skip(i as int + pl));
            }
            let mut piece = slice_to_vec(repb);
            let ghost out0 = out@;
            out.append(&mut piece);
            proof {
                assert(out@ =~= out0 + rep.spec_bytes());
                assert(out0 + (rep.spec_bytes() + replace_all(
                    s@.skip(i as int + pl),
                    pat.spec_bytes(),
                    rep.spec_bytes(),
                )) =~= out@ + replace_all(
                    s@.skip(i as int + pl),
                    pat.spec_bytes(),
                    rep.spec_bytes(),
                ));
            }
            i += pl;
        } else {
            proof {
                if pl > 0 && starts_with(rest, pat.spec_bytes()) {
                    assert(rest.subrange(0, pl as int) =~= s@.subrange(i as int, i as int + pl));
                }
                assert(!(pat.spec_bytes().len() > 0 && starts_with(rest, pat.spec_bytes())));
                assert(rest.subrange(0, 1) =~= seq![s@[i as int]]);
                assert(rest.skip(1) =~= s@.skip(i as int + 1));
            }
            let ghost out0 = out@;
            out.push(s[i]);
            proof {
                assert(out@ =~= out0 + seq![s@[i as int]]);
                assert(out0 + (seq![s@[i as int]] + replace_all(
                    s@.skip(i as int + 1),
                    pat.spec_bytes(),
                    rep.spec_bytes(),
                )) =~= out@ + replace_all(
                    s@.skip(i as int + 1),
                    pat.spec_bytes(),
                    rep.spec_bytes(),
                ));
            }
            i += 1;
        }
    }
    proof {
        assert(s@.skip(n as int) =~= Seq::<u8>::empty());
        assert(out@ + Seq::<u8>::empty() =~= out@);
    }
    out
}

/// The numeric value of a documentation address text: empty means zero; with
/// a `'` separator the hexadecimal digits after the separator and its radix
/// letter count; otherwise the whole text is hexadecimal digits.
pub open spec fn hex_or_zero_spec(s: Seq<u8>) -> Option<u32> {
    if s.len() == 0 {
        Some(0)
    } else {
        match find_byte(s, 39u8) {
            Some(qi) => if qi + 2 <= s.len() {
                parse_hex_spec(s.skip(qi + 2))
            } else {
                None
            },
            None => parse_hex_spec(s),
        }
    }
}

/// Parse an address text, `None` where the original text would be rejected.
pub fn try_parse_hex_or_zero(input: &[u8]) -> (r: Option<u32>)
    ensures
        r == hex_or_zero_spec(input@),
{
    let n = input.len();
    if n == 0 {
        return Some(0);
    }
    match find_byte_in(input, 39) {
        Some(qi) => {
            if n - qi >= 2 {
                let rest = slice_subrange(input, qi + 2, n);
                proof {
                    assert(input@.subrange(qi as int + 2, n as int) =~= input@.skip(qi as int + 2));
                }
                parse_hex(rest)
            } else {
                None
            }
        },
        None => parse_hex(input),
    }
}

/// The value of an address text: zero when empty, else the hexadecimal
/// digits after a `'` separator and its radix letter, else the whole text as
/// hexadecimal. Defined exactly on the texts of those three shapes whose
/// value fits; nothing else is accepted.
pub fn parse_hex_or_zero(input: &[u8]) -> (r: u32)
    requires
        hex_or_zero_spec(input@) is Some,
    ensures
        Some(r) == hex_or_zero_spec(input@),
{
    match try_parse_hex_or_zero(input) {
        Some(v) => v,
        None => {
            proof {
                assert(false);
            }
            0
        },
    }
}

/// The numeric value of a bit-position cell: empty means zero, otherwise
/// decimal digits.
pub open spec fn u32_or_zero_spec(s: Seq<u8>) -> Option<u32> {
    if s.len() == 0 {
        Some(0)
    } else {
        parse_dec_spec(s)
    }
}

/// Parse a bit-position cell, `None` where the original text would be
/// rejected.
pub fn try_parse_u32_or_zero(input: &[u8]) -> (r: Option<u32>)
    ensures
        r == u32_or_zero_spec(input@),
{
    if input.len() == 0 {
        Some(0)
    } else {
        parse_dec(input)
    }
}

/// The value of a bit-position cell: zero when empty, else its decimal
/// digits. Defined exactly on empty texts and decimal numerals that fit.
pub fn parse_u32_or_zero(input: &[u8]) -> (r: u32)
    requires
        u32_or_zero_spec(input@) is Some,
    ensures
        Some(r) == u32_or_zero_spec(input@),
{
    match try_parse_u32_or_zero(input) {
        Some(v) => v,
        None => {
            proof {
                assert(false);
            }
            0
        },
    }
}

/// The fixed access-token table of documentation tables. It differs from the
/// header table: an empty cell is a reserved field, `HwInit` is read-only,
/// and `w` is write-once (documentation tables have no write-only token).
/// Tokens outside it map to nothing: the caller must fail, never guess.
pub open spec fn doc_access_of(t: Seq<u8>) -> Option<AccessMode> {
    if t == "r/w".spec_bytes() || t == "roc/rw".spec_bytes() || t == "rw".spec_bytes() || t
        == "rwac".spec_bytes() || t == "rw1c".spec_bytes() {
        Some(AccessMode::ReadWrite)
    } else if t == "HwInit".spec_bytes() || t == "roc".spec_bytes() || t == "r".spec_bytes() {
        Some(AccessMode::ReadOnly)
    } else if t == "w".spec_bytes() || t == "w1c".spec_bytes() || t == "w1p".spec_bytes() {
        Some(AccessMode::WriteOnce)
    } else if t == "rsvd".spec_bytes() || t.len() == 0 {
        Some(AccessMode::Unspecified)
    } else {
        None
    }
}

/// Look an access token up in the documentation table.
pub fn doc_access_lookup(t: &[u8]) -> (r: Option<AccessMode>)
    ensures
        r == doc_access_of(t@),
{
    if token_is(t, "r/w") || token_is(t, "roc/rw") || token_is(t, "rw") || token_is(t, "rwac")
        || token_is(t, "rw1c") {
        Some(AccessMode::ReadWrite)
    } else if token_is(t, "HwInit") || token_is(t, "roc") || token_is(t, "r") {
        Some(AccessMode::ReadOnly)
    } else if token_is(t, "w") || token_is(t, "w1c") || token_is(t, "w1p") {
        Some(AccessMode::WriteOnce)
    } else if token_is(t, "rsvd") || t.len() == 0 {
        Some(AccessMode::Unspecified)
    } else {
        None
    }
}

/// Only the reserved spelling and the empty cell ever yield `Unspecified`:
/// an unrecognized token is never quietly treated as a reserved field.
pub proof fn lemma_doc_access_never_guessed(t: Seq<u8>)
    requires
        t != "rsvd".spec_bytes(),
        t.len() != 0,
    ensures
        doc_access_of(t) != Some(AccessMode::Unspecified),
{
}

/// A register whose address line has been seen and whose table rows are
/// still being collected.
pub struct DocCur {
    pub name: Vec<u8>,
    pub offset: u32,
    pub header_skipped: bool,
    pub fields: Vec<Field>,
}

pub ghost struct DocCurView {
    pub name: Seq<u8>,
    pub offset: u32,
    pub header_skipped: bool,
    pub fields: Seq<FieldView>,
}

impl View for DocCur {
    type V = DocCurView;

    open spec fn view(&self) -> DocCurView {
        DocCurView {
            name: self.name@,
            offset: self.offset,
            header_skipped: self.header_skipped,
            fields: self.fields@.map_values(|f: Field| f@),
        }
    }
}

/// Scanner state: the finished registers, the last prose line (the next
/// register's title), the register under collection, and the inferred base
/// address once the first register established it.
pub struct DocScan {
    pub regs: Vec<Register>,
    pub pending_title: Option<Vec<u8>>,
    pub cur: Option<DocCur>,
    pub base: Option<u32>,
}

pub ghost struct DocScanView {
    pub regs: Seq<RegisterView>,
    pub pending_title: Option<Seq<u8>>,
    pub cur: Option<DocCurView>,
    pub base: Option<u32>,
}

impl View for DocScan {
    type V = DocScanView;

    open spec fn view(&self) -> DocScanView {
        DocScanView {
            regs: self.regs@.map_values(|r: Register| r@),
            pending_title: match self.pending_title {
                Some(t) => Some(t@),
                None => None,
            },
            cur: match self.cur {
                Some(c) => Some(c@),
                None => None,
            },
            base: self.base,
        }
    }
}

/// Close the register under collection: its collected fields are reversed
/// (tables list fields high bit first) and the register joins the finished
/// list.
pub open spec fn d_push_cur(regs: Seq<RegisterView>, cur: Option<DocCurView>) -> Seq<
    RegisterView,
> {
    match cur {
        None => regs,
        Some(c) => regs.push(
            RegisterView { name: c.name, address_offset: c.offset, fields: c.fields.reverse() },
        ),
    }
}

/// A register closed by `d_push_cur` carries its fields in the exact
/// reverse of table row order.
pub proof fn lemma_doc_fields_reversed(regs: Seq<RegisterView>, c: DocCurView)
    ensures
        d_push_cur(regs, Some(c)).last().fields == c.fields.reverse(),
        d_push_cur(regs, Some(c)).len() == regs.len() + 1,
        d_push_cur(regs, Some(c)).take(regs.len() as int) == regs,
{
    assert(d_push_cur(regs, Some(c)).take(regs.len() as int) =~= regs);
}

/// Reverse a field vector.
fn reverse_fields(v: Vec<Field>) -> (r: Vec<Field>)
    ensures
        r@.map_values(|f: Field| f@) == v@.map_values(|f: Field| f@).reverse(),
{
    let ghost o = v@.map_values(|f: Field| f@);
    let mut v = v;
    let mut r: Vec<Field> = Vec::new();
    proof {
        assert(r@.map_values(|f: Field| f@).reverse() =~= Seq::<FieldView>::empty());
        assert(v@.map_values(|f: Field| f@) + Seq::<FieldView>::empty() =~= o);
    }
    while v.len() > 0
        invariant
            o == v@.map_values(|f: Field| f@) + r@.map_values(|f: Field| f@).reverse(),
        decreases v.len(),
    {
        let ghost vm0 = v@.map_values(|f: Field| f@);
        let ghost rm0 = r@.map_values(|f: Field| f@);
        let x = match v.pop() {
            Some(x) => x,
            None => {
                proof {
                    assert(false);
                }
                return r;
            },
        };
        let ghost xv = x@;
        r.push(x);
        proof {
            assert(v@.map_values(|f: Field| f@) =~= vm0.drop_last());
            assert(vm0.last() == xv);
            assert(r@.map_values(|f: Field| f@) =~= rm0.push(xv));
            assert(rm0.push(xv).reverse() =~= seq![xv] + rm0.reverse());
            assert(vm0.drop_last() + (seq![xv] + rm0.reverse()) =~= vm0 + rm0.reverse());
        }
    }
    proof {
        assert(v@.map_values(|f: Field| f@) =~= Seq::<FieldView>::empty());
        assert(o =~= r@.map_values(|f: Field| f@).reverse());
        assert(r@.map_values(|f: Field| f@) =~= o.reverse());
    }
    r
}

fn push_cur(regs: Vec<Register>, cur: Option<DocCur>) -> (r: Vec<Register>)
    ensures
        r@.map_values(|x: Register| x@) == d_push_cur(
            regs@.map_values(|x: Register| x@),
            match cur {
                Some(c) => Some(c@),
                None => None,
            },
        ),
{
    match cur {
        None => regs,
        Some(c) => {
            let ghost cv = c@;
            let ghost regs0 = regs@.map_values(|x: Register| x@);
            let mut regs = regs;
            let fields = reverse_fields(c.fields);
            regs.push(Register { name: c.name, address_offset: c.offset, fields });
            proof {
                assert(regs@.map_values(|x: Register| x@) =~= regs0.push(
                    RegisterView {
                        name: cv.name,
                        address_offset: cv.offset,
                        fields: cv.fields.reverse(),
                    },
                ));
            }
            regs
        },
    }
}

/// A prose line: close the register under collection and remember the line
/// as the next register's title. The last prose line before an address line
/// is the title that counts.
pub open spec fn d_set_title(s: DocScanView, line: Seq<u8>) -> DocScanView {
    DocScanView {
        regs: d_push_cur(s.regs, s.cur),
        pending_title: Some(line),
        cur: None,
        base: s.base,
    }
}

/// An address line: open the register named by the pending title. The first
/// register's address establishes the inferred base; every offset is the
/// register's address minus that base, and an address below the base is
/// malformed.
pub open spec fn d_address_step(s: DocScanView, raw: Seq<u8>) -> Result<
    DocScanView,
    ExtractError,
> {
    match s.pending_title {
        None => Err(ExtractError::MalformedTable(ParseRule::Title)),
        Some(title) => {
            let addr_txt = trim(raw);
            let t = if starts_with(addr_txt, "0x".spec_bytes()) {
                addr_txt.skip("0x".spec_bytes().len() as int)
            } else {
                addr_txt
            };
            match hex_or_zero_spec(t) {
                None => Err(ExtractError::MalformedTable(ParseRule::Address)),
                Some(addr) => {
                    let b = match s.base {
                        None => addr,
                        Some(x) => x,
                    };
                    if addr < b {
                        Err(ExtractError::MalformedTable(ParseRule::Address))
                    } else {
                        Ok(
                            DocScanView {
                                regs: d_push_cur(s.regs, s.cur),
                                pending_title: None,
                                cur: Some(
                                    DocCurView {
                                        name: title,
                                        offset: (addr - b) as u32,
                                        header_skipped: false,
                                        fields: Seq::empty(),
                                    },
                                ),
                                base: Some(b),
                            },
                        )
                    }
                },
            }
        },
    }
}

fn doc_address_step(st: DocScan, raw: &[u8]) -> (r: Result<DocScan, ExtractError>)
    ensures
        ok_view(r) == d_address_step(st@, raw@),
{
    let DocScan { regs, pending_title, cur, base } = st;
    let title = match pending_title {
        None => {
            return Err(ExtractError::MalformedTable(ParseRule::Title));
        },
        Some(t) => t,
    };
    let addr_txt = trim_slice(raw);
    let t = if has_prefix(addr_txt, "0x") {
        strip_prefix(addr_txt, "0x")
    } else {
        addr_txt
    };
    let addr = match try_parse_hex_or_zero(t) {
        None => {
            return Err(ExtractError::MalformedTable(ParseRule::Address));
        },
        Some(a) => a,
    };
    let b = match base {
        None => addr,
        Some(x) => x,
    };
    if addr < b {
        return Err(ExtractError::MalformedTable(ParseRule::Address));
    }
    let regs = push_cur(regs, cur);
    let c = DocCur { name: title, offset: addr - b, header_skipped: false, fields: Vec::new() };
    proof {
        assert(c@.fields =~= Seq::<FieldView>::empty());
    }
    Ok(DocScan { regs, pending_title: None, cur: Some(c), base: Some(b) })
}

/// The two numbers of a bits cell, `<msb>:<lsb>` or a single `<bit>` that
/// stands for both bounds; an empty number means zero.
pub open spec fn d_parse_bits(t: Seq<u8>) -> Option<(u32, u32)> {
    match find_byte(t, 58u8) {
        Some(bi) => match (u32_or_zero_spec(trim(t.subrange(0, bi))), u32_or_zero_spec(
            trim(t.skip(bi + 1)),
        )) {
            (Some(hi), Some(lo)) => Some((hi, lo)),
            _ => None,
        },
        None => match u32_or_zero_spec(t) {
            Some(v) => Some((v, v)),
            None => None,
        },
    }
}

fn d_parse_bits_exec(t: &[u8]) -> (r: Option<(u32, u32)>)
    ensures
        r == d_parse_bits(t@),
{
    match find_byte_in(t, 58) {
        Some(bi) => {
            proof {
                lemma_find_byte(t@, 58u8);
            }
            let hi = try_parse_u32_or_zero(trim_slice(slice_subrange(t, 0, bi)));
            let lo_sl = slice_subrange(t, bi + 1, t.len());
            proof {
                assert(t@.subrange(bi as int + 1, t@.len() as int) =~= t@.skip(bi as int + 1));
            }
            let lo = try_parse_u32_or_zero(trim_slice(lo_sl));
            match (hi, lo) {
                (Some(h), Some(l)) => Some((h, l)),
                _ => None,
            }
        },
        None => {
            match try_parse_u32_or_zero(t) {
                Some(v) => Some((v, v)),
                None => None,
            }
        },
    }
}

/// A field row of five cells: bits, name, access, reset (parsed over and
/// discarded), description. The field is built under weak validation and
/// appended in row order.
pub open spec fn d_field_cells(
    s: DocScanView,
    c: DocCurView,
    cells: Seq<Seq<u8>>,
) -> Result<DocScanView, ExtractError> {
    match d_parse_bits(cells[0]) {
        None => Err(ExtractError::MalformedTable(ParseRule::Bits)),
        Some((msb, lsb)) => match doc_access_of(cells[2]) {
            None => Err(ExtractError::UnknownAccessMode),
            Some(a) => match field_build_spec(
                cells[1],
                BitRange { msb, lsb },
                a,
                Some(cells[4]),
                ValidateLevel::Weak,
            ) {
                Err(e) => Err(e),
                Ok(fv) => Ok(
                    DocScanView {
                        regs: s.regs,
                        pending_title: s.pending_title,
                        cur: Some(
                            DocCurView {
                                name: c.name,
                                offset: c.offset,
                                header_skipped: c.header_skipped,
                                fields: c.fields.push(fv),
                            },
                        ),
                        base: s.base,
                    },
                ),
            },
        },
    }
}

/// An unrecognized access token fails the row, and with it the file, with
/// `UnknownAccessMode`; it is never mapped to some default.
pub proof fn lemma_doc_unknown_access_fails(s: DocScanView, c: DocCurView, cells: Seq<Seq<u8>>)
    requires
        d_parse_bits(cells[0]) is Some,
        doc_access_of(cells[2]) is None,
    ensures
        d_field_cells(s, c, cells) == Err::<DocScanView, ExtractError>(
            ExtractError::UnknownAccessMode,
        ),
{
}

/// A continuation row of one cell: its text joins the previous field's
/// description after a newline. Before any field it is a structural error.
pub open spec fn d_continuation(
    s: DocScanView,
    c: DocCurView,
    text: Seq<u8>,
) -> Result<DocScanView, ExtractError> {
    if c.fields.len() == 0 {
        Err(ExtractError::DanglingContinuationRow)
    } else {
        let last = c.fields.last();
        let old_d = match last.description {
            Some(d) => d,
            None => Seq::empty(),
        };
        let new_last = FieldView {
            name: last.name,
            bits: last.bits,
            access: last.access,
            description: Some(old_d + seq![10u8] + text),
        };
        Ok(
            DocScanView {
                regs: s.regs,
                pending_title: s.pending_title,
                cur: Some(
                    DocCurView {
                        name: c.name,
                        offset: c.offset,
                        header_skipped: c.header_skipped,
                        fields: c.fields.update(c.fields.len() - 1, new_last),
                    },
                ),
                base: s.base,
            },
        )
    }
}

/// A continuation row before any field of its table fails with
/// `DanglingContinuationRow`.
pub proof fn lemma_dangling_continuation_fails(s: DocScanView, c: DocCurView, text: Seq<u8>)
    requires
        c.fields.len() == 0,
    ensures
        d_continuation(s, c, text) == Err::<DocScanView, ExtractError>(
            ExtractError::DanglingContinuationRow,
        ),
{
}

/// A continuation row's text is concatenated, newline-separated, onto the
/// previous field's description; every other field, and everything else
/// about the previous field, stays as it was.
pub proof fn lemma_continuation_appends(s: DocScanView, c: DocCurView, text: Seq<u8>)
    requires
        c.fields.len() > 0,
    ensures
        d_continuation(s, c, text) matches Ok(s2) && s2.cur matches Some(c2) && c2.fields.len()
            == c.fields.len() && c2.fields.last().description == Some(
            (match c.fields.last().description {
                Some(d) => d,
                None => Seq::<u8>::empty(),
            }) + seq![10u8] + text,
        ) && c2.fields.last().name == c.fields.last().name && c2.fields.last().bits
            == c.fields.last().bits && c2.fields.last().access == c.fields.last().access
            && c2.fields.take(c.fields.len() - 1) == c.fields.take(c.fields.len() - 1),
{
    match d_continuation(s, c, text) {
        Ok(s2) => {
            match s2.cur {
                Some(c2) => {
                    assert(c2.fields.take(c.fields.len() - 1) =~= c.fields.take(
                        c.fields.len() - 1,
                    ));
                },
                None => {
                    assert(false);
                },
            }
        },
        Err(_) => {
            assert(false);
        },
    }
}

/// A table row: the first row of each table is the column-header row and is
/// skipped; then five cells make a field row and one cell a continuation
/// row. A row outside any table, or with another cell count, is malformed.
pub open spec fn d_row_step(s: DocScanView, line: Seq<u8>) -> Result<DocScanView, ExtractError> {
    match s.cur {
        None => Err(ExtractError::MalformedTable(ParseRule::Row)),
        Some(c) => {
            if line.len() < 2 || line.last() != 124u8 {
                Err(ExtractError::MalformedTable(ParseRule::Row))
            } else {
                let cells = split_on(line.subrange(1, line.len() - 1), 124u8).map_values(
                    |x: Seq<u8>| trim(x),
                );
                if !c.header_skipped {
                    Ok(
                        DocScanView {
                            regs: s.regs,
                            pending_title: s.pending_title,
                            cur: Some(
                                DocCurView {
                                    name: c.name,
                                    offset: c.offset,
                                    header_skipped: true,
                                    fields: c.fields,
                                },
                            ),
                            base: s.base,
                        },
                    )
                } else if cells.len() == 5 {
                    d_field_cells(s, c, cells)
                } else if cells.len() == 1 {
                    d_continuation(s, c, cells[0])
                } else {
                    Err(ExtractError::MalformedTable(ParseRule::Row))
                }
            }
        },
    }
}

fn doc_row_step(st: DocScan, line: &[u8]) -> (r: Result<DocScan, ExtractError>)
    ensures
        ok_view(r) == d_row_step(st@, line@),
{
    let DocScan { regs, pending_title, cur, base } = st;
    let c = match cur {
        None => {
            return Err(ExtractError::MalformedTable(ParseRule::Row));
        },
        Some(c) => c,
    };
    let n = line.len();
    if n < 2 || line[n - 1] != 124 {
        return Err(ExtractError::MalformedTable(ParseRule::Row));
    }
    let body = slice_subrange(line, 1, n - 1);
    let raw = split_on_exec(body, 124);
    let m = raw.len();
    let mut cells: Vec<Vec<u8>> = Vec::new();
    let mut j: usize = 0;
    while j < m
        invariant
            j <= m,
            m == raw@.len(),
            cells@.len() == j,
            forall|k: int| 0 <= k < j ==> #[trigger] cells@[k]@ == trim(raw@[k]@),
        decreases m - j,
    {
        let piece = slice_to_vec(trim_slice(raw[j].as_slice()));
        cells.push(piece);
        j += 1;
    }
    let ghost cells_spec = split_on(line@.subrange(1, line@.len() - 1), 124u8).map_values(
        |x: Seq<u8>| trim(x),
    );
    proof {
        assert(raw@.map_values(|v: Vec<u8>| v@) == split_on(body@, 124u8));
        assert forall|k: int| 0 <= k < m implies #[trigger] cells_spec[k] == cells@.map_values(
            |v: Vec<u8>| v@,
        )[k] by {
            assert(raw@.map_values(|v: Vec<u8>| v@)[k] == split_on(body@, 124u8)[k]);
            assert(cells@[k]@ == trim(raw@[k]@));
        }
        assert(cells@.map_values(|v: Vec<u8>| v@) =~= cells_spec);
    }
    if !c.header_skipped {
        let DocCur { name, offset, header_skipped: _, fields } = c;
        return Ok(
            DocScan {
                regs,
                pending_title,
                cur: Some(DocCur { name, offset, header_skipped: true, fields }),
                base,
            },
        );
    }
    if cells.len() == 5 {
        doc_field_cells(regs, pending_title, base, c, cells)
    } else if cells.len() == 1 {
        let mut cells = cells;
        let text = match cells.pop() {
            Some(t) => t,
            None => {
                proof {
                    assert(false);
                }
                Vec::new()
            },
        };
        proof {
            assert(text@ == cells_spec[0]);
        }
        doc_continuation(regs, pending_title, base, c, text)
    } else {
        Err(ExtractError::MalformedTable(ParseRule::Row))
    }
}

fn doc_field_cells(
    regs: Vec<Register>,
    pending_title: Option<Vec<u8>>,
    base: Option<u32>,
    c: DocCur,
    cells: Vec<Vec<u8>>,
) -> (r: Result<DocScan, ExtractError>)
    requires
        cells@.len() == 5,
    ensures
        ok_view(r) == d_field_cells(
            DocScanView {
                regs: regs@.map_values(|x: Register| x@),
                pending_title: crate::model::opt_bytes_view(pending_title),
                cur: Some(c@),
                base,
            },
            c@,
            cells@.map_values(|v: Vec<u8>| v@),
        ),
{
    let mut cells = cells;
    let ghost cv = cells@.map_values(|v: Vec<u8>| v@);
    let c0 = cells.remove(0);
    let c1 = cells.remove(0);
    let c2 = cells.remove(0);
    let _c3 = cells.remove(0);
    let c4 = cells.remove(0);
    proof {
        assert(c0@ == cv[0]);
        assert(c1@ == cv[1]);
        assert(c2@ == cv[2]);
        assert(c4@ == cv[4]);
    }
    let (msb, lsb) = match d_parse_bits_exec(c0.as_slice()) {
        None => {
            return Err(ExtractError::MalformedTable(ParseRule::Bits));
        },
        Some(p) => p,
    };
    let a = match doc_access_lookup(c2.as_slice()) {
        None => {
            return Err(ExtractError::UnknownAccessMode);
        },
        Some(a) => a,
    };
    match Field::build(c1, BitRange { msb, lsb }, a, Some(c4), ValidateLevel::Weak) {
        Err(e) => Err(e),
        Ok(f) => {
            let DocCur { name, offset, header_skipped, mut fields } = c;
            let ghost fields0 = fields@.map_values(|x: Field| x@);
            let ghost fv = f@;
            fields.push(f);
            proof {
                assert(fields@.map_values(|x: Field| x@) =~= fields0.push(fv));
            }
            Ok(
                DocScan {
                    regs,
                    pending_title,
                    cur: Some(DocCur { name, offset, header_skipped, fields }),
                    base,
                },
            )
        },
    }
}

fn doc_continuation(
    regs: Vec<Register>,
    pending_title: Option<Vec<u8>>,
    base: Option<u32>,
    c: DocCur,
    text: Vec<u8>,
) -> (r: Result<DocScan, ExtractError>)
    ensures
        ok_view(r) == d_continuation(
            DocScanView {
                regs: regs@.map_values(|x: Register| x@),
                pending_title: crate::model::opt_bytes_view(pending_title),
                cur: Some(c@),
                base,
            },
            c@,
            text@,
        ),
{
    let DocCur { name, offset, header_skipped, mut fields } = c;
    if fields.len() == 0 {
        return Err(ExtractError::DanglingContinuationRow);
    }
    let ghost fields0 = fields@.map_values(|x: Field| x@);
    let f = match fields.pop() {
        Some(f) => f,
        None => {
            proof {
                assert(false);
            }
            return Err(ExtractError::DanglingContinuationRow);
        },
    };
    let ghost fv = f@;
    let Field { name: fname, bits, access, description } = f;
    let mut d: Vec<u8> = match description {
        Some(d) => d,
        None => Vec::new(),
    };
    let ghost old_d = d@;
    d.push(10);
    let mut tail = text;
    d.append(&mut tail);
    let f2 = Field { name: fname, bits, access, description: Some(d) };
    let ghost f2v = f2@;
    proof {
        assert(f2v.description == Some(old_d + seq![10u8] + text@));
    }
    fields.push(f2);
    proof {
        assert(fields0.last() == fv);
        assert(fields@.map_values(|x: Field| x@) =~= fields0.update(fields0.len() - 1, f2v));
    }
    Ok(
        DocScan {
            regs,
            pending_title,
            cur: Some(DocCur { name, offset, header_skipped, fields }),
            base,
        },
    )
}

/// A byte that may draw a section underline.
pub open spec fn is_rule_byte(b: u8) -> bool {
    b == 45 || b == 61 || b == 94 || b == 126
}

/// A section underline: a nonempty line drawn from underline bytes alone.
pub open spec fn is_underline(line: Seq<u8>) -> bool {
    line.len() > 0 && forall|i: int| 0 <= i < line.len() ==> is_rule_byte(#[trigger] line[i])
}

fn is_underline_exec(line: &[u8]) -> (r: bool)
    ensures
        r == is_underline(line@),
{
    let n = line.len();
    if n == 0 {
        return false;
    }
    let mut i: usize = 0;
    while i < n
        invariant
            i <= n,
            n == line@.len(),
            forall|j: int| 0 <= j < i ==> is_rule_byte(#[trigger] line@[j]),
        decreases n - i,
    {
        let b = line[i];
        if !(b == 45 || b == 61 || b == 94 || b == 126) {
            return false;
        }
        i += 1;
    }
    true
}

/// One trimmed line of the document: a table row, an address line, table
/// frame or underline decoration, or a prose line that titles the next
/// register.
pub open spec fn d_line_step(s: DocScanView, line: Seq<u8>) -> Result<DocScanView, ExtractError> {
    if line.len() == 0 {
        Ok(s)
    } else if line[0] == 124u8 {
        d_row_step(s, line)
    } else if starts_with(line, "Address:".spec_bytes()) {
        d_address_step(s, line.skip("Address:".spec_bytes().len() as int))
    } else if line[0] == 43u8 {
        Ok(s)
    } else if is_underline(line) {
        Ok(s)
    } else {
        Ok(d_set_title(s, line))
    }
}

fn doc_line_step(st: DocScan, line: &[u8]) -> (r: Result<DocScan, ExtractError>)
    ensures
        ok_view(r) == d_line_step(st@, line@),
{
    if line.len() == 0 {
        Ok(st)
    } else if line[0] == 124 {
        doc_row_step(st, line)
    } else if has_prefix(line, "Address:") {
        doc_address_step(st, strip_prefix(line, "Address:"))
    } else if line[0] == 43 {
        Ok(st)
    } else if is_underline_exec(line) {
        Ok(st)
    } else {
        let DocScan { regs, pending_title: _, cur, base } = st;
        let regs = push_cur(regs, cur);
        Ok(DocScan { regs, pending_title: Some(slice_to_vec(line)), cur: None, base })
    }
}

/// The whole scan: state so far, or the error that ended it, plus the bytes
/// of the line still being gathered.
pub ghost struct DMachine {
    pub st: Result<DocScanView, ExtractError>,
    pub buf: Seq<u8>,
}

pub open spec fn d_line_result(
    st: Result<DocScanView, ExtractError>,
    raw: Seq<u8>,
) -> Result<DocScanView, ExtractError> {
    match st {
        Err(e) => Err(e),
        Ok(s) => d_line_step(s, trim(raw)),
    }
}

pub open spec fn d_byte_step(m: DMachine, b: u8) -> DMachine {
    if b == 10 {
        DMachine { st: d_line_result(m.st, m.buf), buf: Seq::empty() }
    } else {
        DMachine { st: m.st, buf: m.buf.push(b) }
    }
}

pub open spec fn d_fold(m: DMachine, s: Seq<u8>) -> DMachine
    decreases s.len(),
{
    if s.len() == 0 {
        m
    } else {
        d_fold(d_byte_step(m, s[0]), s.skip(1))
    }
}

pub open spec fn d_init() -> DMachine {
    DMachine {
        st: Ok(DocScanView { regs: Seq::empty(), pending_title: None, cur: None, base: None }),
        buf: Seq::empty(),
    }
}

pub open spec fn d_finalize(m: DMachine) -> Result<
    (Seq<RegisterView>, Option<u32>),
    ExtractError,
> {
    match d_line_result(m.st, m.buf) {
        Err(e) => Err(e),
        Ok(s1) => Ok((d_push_cur(s1.regs, s1.cur), s1.base)),
    }
}

/// What scanning one document's substituted text yields: the registers of
/// all its tables in order, and the inferred base address, if any register
/// established one.
pub open spec fn doc_tables_spec(text: Seq<u8>) -> Result<
    (Seq<RegisterView>, Option<u32>),
    ExtractError,
> {
    d_finalize(
        d_fold(
            d_init(),
            replace_all(text, "Vsync|Hsync".spec_bytes(), "Vsync or Hsync".spec_bytes()),
        ),
    )
}

proof fn lemma_d_fold_err(m: DMachine, s: Seq<u8>)
    requires
        m.st is Err,
    ensures
        d_fold(m, s).st == m.st,
    decreases s.len(),
{
    if s.len() > 0 {
        lemma_d_fold_err(d_byte_step(m, s[0]), s.skip(1));
    }
}

/// What extracting a whole peripheral from a document yields: its registers
/// under the caller's name, based at the explicit override where one is
/// given and at the inferred base otherwise (zero when no register inferred
/// one), built under strict validation. The override replaces only the
/// recorded base: the offsets were already taken against the inferred base.
pub open spec fn peripheral_from_doc_spec(
    text: Seq<u8>,
    name: Seq<u8>,
    alt_base: Option<u64>,
) -> Result<PeripheralView, ExtractError> {
    match doc_tables_spec(text) {
        Err(e) => Err(e),
        Ok((regs, inferred)) => {
            let base: u64 = match alt_base {
                Some(b) => b,
                None => match inferred {
                    Some(x) => x as u64,
                    None => 0u64,
                },
            };
            peripheral_build_spec(name, base, regs, ValidateLevel::Strict)
        },
    }
}

/// An explicit base-address override changes only the peripheral's recorded
/// base address: the registers, their offsets and the name are exactly those
/// of the un-overridden parse, which succeeds or fails the same way.
pub proof fn lemma_base_override_changes_only_base(text: Seq<u8>, name: Seq<u8>, b: u64)
    ensures
        match (peripheral_from_doc_spec(text, name, None), peripheral_from_doc_spec(
            text,
            name,
            Some(b),
        )) {
            (Ok(p0), Ok(p1)) => p1.base_address == b && p1.registers == p0.registers && p1.name
                == p0.name,
            (Err(e0), Err(e1)) => e0 == e1,
            _ => false,
        },
{
}

/// Holds of every state the scan can reach: the first finished register, or
/// failing one the register under collection when none is finished, sits at
/// offset zero, and a base is inferred exactly while some register exists.
pub open spec fn first_offset_zero_inv(s: DocScanView) -> bool {
    &&& (s.regs.len() > 0 ==> s.regs[0].address_offset == 0)
    &&& (match s.cur {
        Some(c) => s.regs.len() == 0 ==> c.offset == 0,
        None => true,
    })
    &&& (s.base is None ==> s.regs.len() == 0 && s.cur is None)
    &&& (s.base is Some ==> s.regs.len() > 0 || s.cur is Some)
}

proof fn lemma_d_line_inv(s: DocScanView, line: Seq<u8>)
    requires
        first_offset_zero_inv(s),
    ensures
        d_line_step(s, line) matches Ok(s2) ==> first_offset_zero_inv(s2),
{
}

proof fn lemma_d_fold_inv(m: DMachine, s: Seq<u8>)
    requires
        match m.st {
            Ok(st) => first_offset_zero_inv(st),
            Err(_) => true,
        },
    ensures
        match d_fold(m, s).st {
            Ok(st) => first_offset_zero_inv(st),
            Err(_) => true,
        },
    decreases s.len(),
{
    if s.len() > 0 {
        let m2 = d_byte_step(m, s[0]);
        if s[0] == 10 {
            match m.st {
                Ok(st) => lemma_d_line_inv(st, trim(m.buf)),
                Err(_) => {},
            }
        }
        lemma_d_fold_inv(m2, s.skip(1));
    }
}

/// With no explicit base-address override the first register's offset is
/// always zero: its own address is the inferred base it is taken against.
/// (The offsets do not depend on the override at all, so the statement
/// holds for any override.)
pub proof fn lemma_doc_first_register_offset_zero(
    text: Seq<u8>,
    name: Seq<u8>,
    alt_base: Option<u64>,
)
    ensures
        match peripheral_from_doc_spec(text, name, alt_base) {
            Ok(p) => p.registers.len() > 0 ==> p.registers[0].address_offset == 0,
            Err(_) => true,
        },
{
    let pre = replace_all(text, "Vsync|Hsync".spec_bytes(), "Vsync or Hsync".spec_bytes());
    lemma_d_fold_inv(d_init(), pre);
    let m = d_fold(d_init(), pre);
    match m.st {
        Ok(st) => {
            lemma_d_line_inv(st, trim(m.buf));
        },
        Err(_) => {},
    }
}

/// Extract one peripheral from a documentation file's text.
pub fn peripheral_from_doc_rst(text: &[u8], peripheral_name: Vec<u8>, alt_base: Option<u64>) -> (r:
    Result<Peripheral, ExtractError>)
    ensures
        ok_view(r) == peripheral_from_doc_spec(text@, peripheral_name@, alt_base),
{
    let replaced = replace_all_exec(text, "Vsync|Hsync", "Vsync or Hsync");
    let ghost pre = replaced@;
    let mut scan = DocScan { regs: Vec::new(), pending_title: None, cur: None, base: None };
    let mut buf: Vec<u8> = Vec::new();
    proof {
        assert(scan@.regs =~= Seq::<RegisterView>::empty());
        assert(d_init() == DMachine { st: Ok::<DocScanView, ExtractError>(scan@), buf: buf@ });
        assert(pre.skip(0) =~= pre);
    }
    let n = replaced.len();
    let mut i: usize = 0;
    while i < n
        invariant
            i <= n,
            n == pre.len(),
            pre == replaced@,
            pre == replace_all(text@, "Vsync|Hsync".spec_bytes(), "Vsync or Hsync".spec_bytes()),
            d_fold(d_init(), pre) == d_fold(
                DMachine { st: Ok::<DocScanView, ExtractError>(scan@), buf: buf@ },
                pre.skip(i as int),
            ),
        decreases n - i,
    {
        let b = replaced[i];
        proof {
            assert(pre.skip(i as int)[0] == pre[i as int]);
            assert(pre.skip(i as int).skip(1) =~= pre.skip(i as int + 1));
        }
        if b == 10 {
            let ghost mach = DMachine { st: Ok::<DocScanView, ExtractError>(scan@), buf: buf@ };
            let line = trim_slice(buf.as_slice());
            match doc_line_step(scan, line) {
                Ok(s2) => {
                    proof {
                        assert(d_byte_step(mach, 10) == DMachine {
                            st: Ok::<DocScanView, ExtractError>(s2@),
                            buf: Seq::<u8>::empty(),
                        });
                    }
                    scan = s2;
                    buf.clear();
                },
                Err(e) => {
                    proof {
                        let m2 = d_byte_step(mach, 10);
                        assert(m2.st == Err::<DocScanView, ExtractError>(e));
                        assert(d_fold(mach, pre.skip(i as int)) == d_fold(
                            m2,
                            pre.skip(i as int + 1),
                        ));
                        lemma_d_fold_err(m2, pre.skip(i as int + 1));
                        assert(d_fold(d_init(), pre).st == Err::<DocScanView, ExtractError>(e));
                        assert(doc_tables_spec(text@) == Err::<
                            (Seq<RegisterView>, Option<u32>),
                            ExtractError,
                        >(e));
                    }
                    return Err(e);
                },
            }
        } else {
            buf.push(b);
        }
        i += 1;
    }
    proof {
        assert(pre.skip(n as int) =~= Seq::<u8>::empty());
    }
    let line = trim_slice(buf.as_slice());
    match doc_line_step(scan, line) {
        Err(e) => Err(e),
        Ok(s2) => {
            let DocScan { regs, pending_title: _, cur, base } = s2;
            let regs = push_cur(regs, cur);
            let inferred = base;
            let base_u64: u64 = match alt_base {
                Some(b) => b,
                None => match inferred {
                    Some(x) => x as u64,
                    None => 0u64,
                },
            };
            match Peripheral::build(peripheral_name, base_u64, regs, ValidateLevel::Strict) {
                Ok(p) => Ok(p),
                Err(e) => Err(e),
            }
        },
    }
}

} // verus!
