//! Renderers: pure formatting of a lookup table into raw rows or C/Rust
//! source text, with user sections interleaved at fixed insertion points.
use vstd::prelude::*;

use crate::DutyCycle;
use crate::errors::SpwmError;
use crate::ratio::{Ratio, SRatio};
use crate::sections::{
    Registry, ScanState, UserSection, begin_index_of, block_lines_safe, copy_bytes,
    lemma_blank_no_marker, lemma_no_marker_at, lemma_round_trip, pair_lines, points_lines,
    reg_lookup, reg_sorted, remains_lines, scan_lines, section_text_safe, spec_scan,
};
use crate::text::{is_digit, is_ws, lemma_dec_nat_digits};
use crate::spwm::{SPWM, spec_pad_offset, spec_table_not};
use crate::text::{append_bytes, dec_nat, join_lines, join_lines_vec, u64_to_dec};

verus! {

/// One hexadecimal digit, upper case.
pub open spec fn hex_digit(d: int) -> u8 {
    if d < 10 {
        (48 + d) as u8
    } else {
        (55 + d) as u8
    }
}

/// The hexadecimal digits of a nonnegative integer, upper case.
pub open spec fn hex_nat(n: int) -> Seq<u8>
    decreases n,
{
    if n <= 0 {
        seq![48u8]
    } else if n < 16 {
        seq![hex_digit(n)]
    } else {
        hex_nat(n / 16).push(hex_digit(n % 16))
    }
}

/// `n` copies of one byte.
pub open spec fn rep_byte(b: u8, n: int) -> Seq<u8>
    decreases n,
{
    if n <= 0 {
        Seq::empty()
    } else {
        rep_byte(b, n - 1).push(b)
    }
}

/// `s` padded on the left with `b` up to width `w`.
pub open spec fn pad_left(s: Seq<u8>, w: int, b: u8) -> Seq<u8> {
    if s.len() >= w {
        s
    } else {
        rep_byte(b, w - s.len()) + s
    }
}

/// Render a `usize` in upper-case hexadecimal.
pub fn usize_to_hex(n: usize) -> (r: Vec<u8>)
    ensures
        r@ == hex_nat(n as int),
    decreases n,
{
    if n < 16 {
        let mut r: Vec<u8> = Vec::new();
        let d: u8 = if n < 10 {
            48 + (n as u8)
        } else {
            55 + (n as u8)
        };
        r.push(d);
        proof {
            assert(r@ =~= hex_nat(n as int));
        }
        r
    } else {
        let mut r = usize_to_hex(n / 16);
        let m = n % 16;
        let d: u8 = if m < 10 {
            48 + (m as u8)
        } else {
            55 + (m as u8)
        };
        r.push(d);
        r
    }
}

/// Pad on the left with a fill byte up to the width.
pub fn pad_left_vec(s: Vec<u8>, w: usize, b: u8) -> (r: Vec<u8>)
    ensures
        r@ == pad_left(s@, w as int, b),
{
    if s.len() >= w {
        return s;
    }
    let n = w - s.len();
    let mut r: Vec<u8> = Vec::new();
    let mut i: usize = 0;
    while i < n
        invariant
            i <= n,
            r@ == rep_byte(b, i as int),
        decreases n - i,
    {
        r.push(b);
        i = i + 1;
    }
    append_bytes(&mut r, &s);
    r
}

/// One decimal table cell: the value right-aligned in `w` columns, then a
/// comma and a space.
pub open spec fn dec_cell(v: int, w: int) -> Seq<u8> {
    pad_left(dec_nat(v), w, 32) + seq![44u8, 32u8]
}

/// One hexadecimal table cell: `0x`, the value zero-padded to `w` digits,
/// then a comma and a space.
pub open spec fn hex_cell(v: int, w: int) -> Seq<u8> {
    seq![48u8, 120u8] + pad_left(hex_nat(v), w, 48) + seq![44u8, 32u8]
}

/// One raw cell: the value right-aligned in three columns, then the
/// separator.
pub open spec fn raw_cell(v: int, sep: Seq<u8>) -> Seq<u8> {
    pad_left(dec_nat(v), 3, 32) + sep
}

/// One raw hexadecimal cell: the value zero-padded to four digits, then the
/// separator.
pub open spec fn raw_hex_cell(v: int, sep: Seq<u8>) -> Seq<u8> {
    pad_left(hex_nat(v), 4, 48) + sep
}

pub fn dec_cell_vec(v: DutyCycle, w: usize) -> (r: Vec<u8>)
    ensures
        r@ == dec_cell(v as int, w as int),
{
    let ds = u64_to_dec(v as u64);
    let mut r = pad_left_vec(ds, w, 32);
    r.push(44);
    r.push(32);
    proof {
        assert(r@ =~= dec_cell(v as int, w as int));
    }
    r
}

pub fn hex_cell_vec(v: DutyCycle, w: usize) -> (r: Vec<u8>)
    ensures
        r@ == hex_cell(v as int, w as int),
{
    let ds = usize_to_hex(v);
    let padded = pad_left_vec(ds, w, 48);
    let mut r: Vec<u8> = Vec::new();
    r.push(48);
    r.push(120);
    append_bytes(&mut r, &padded);
    r.push(44);
    r.push(32);
    proof {
        assert(r@ =~= hex_cell(v as int, w as int));
    }
    r
}

pub fn raw_cell_vec(v: DutyCycle, sep: &Vec<u8>) -> (r: Vec<u8>)
    ensures
        r@ == raw_cell(v as int, sep@),
{
    let ds = u64_to_dec(v as u64);
    let mut r = pad_left_vec(ds, 3, 32);
    append_bytes(&mut r, sep);
    r
}

pub fn raw_hex_cell_vec(v: DutyCycle, sep: &Vec<u8>) -> (r: Vec<u8>)
    ensures
        r@ == raw_hex_cell(v as int, sep@),
{
    let ds = usize_to_hex(v);
    let mut r = pad_left_vec(ds, 4, 48);
    append_bytes(&mut r, sep);
    r
}

/// Cell styles of the four row shapes.
#[derive(Clone, Copy, PartialEq, Eq, Structural)]
pub enum CellKind {
    DecAligned,
    HexPadded,
    RawDec,
    RawHex,
}

/// One cell in the given style: the fixed-width styles take the column width
/// `w`, the raw styles the separator.
pub open spec fn cell_of(kind: CellKind, v: int, w: int, sep: Seq<u8>) -> Seq<u8> {
    match kind {
        CellKind::DecAligned => dec_cell(v, w),
        CellKind::HexPadded => hex_cell(v, w),
        CellKind::RawDec => raw_cell(v, sep),
        CellKind::RawHex => raw_hex_cell(v, sep),
    }
}

/// A row of cells.
pub open spec fn row_of(kind: CellKind, row: Seq<DutyCycle>, w: int, sep: Seq<u8>) -> Seq<u8>
    decreases row.len(),
{
    if row.len() == 0 {
        Seq::empty()
    } else {
        cell_of(kind, row[0] as int, w, sep) + row_of(kind, row.drop_first(), w, sep)
    }
}

/// Four spaces: the indentation of a source-file table row.
pub open spec fn sp4() -> Seq<u8> {
    seq![32u8, 32u8, 32u8, 32u8]
}

/// The row prefix for each style: source rows are indented, raw rows not.
pub open spec fn row_prefix(kind: CellKind) -> Seq<u8> {
    match kind {
        CellKind::DecAligned => sp4(),
        CellKind::HexPadded => sp4(),
        CellKind::RawDec => Seq::empty(),
        CellKind::RawHex => Seq::empty(),
    }
}

/// The table grouped into rows of `width` entries, one line each.
pub open spec fn table_lines(
    kind: CellKind,
    table: Seq<DutyCycle>,
    width: int,
    w: int,
    sep: Seq<u8>,
) -> Seq<Seq<u8>>
    decreases table.len(),
{
    if width <= 0 || table.len() == 0 {
        Seq::empty()
    } else if table.len() <= width {
        seq![row_prefix(kind) + row_of(kind, table, w, sep)]
    } else {
        seq![row_prefix(kind) + row_of(kind, table.take(width), w, sep)] + table_lines(
            kind,
            table.skip(width),
            width,
            w,
            sep,
        )
    }
}

fn cell_vec(kind: CellKind, v: DutyCycle, w: usize, sep: &Vec<u8>) -> (r: Vec<u8>)
    ensures
        r@ == cell_of(kind, v as int, w as int, sep@),
{
    match kind {
        CellKind::DecAligned => dec_cell_vec(v, w),
        CellKind::HexPadded => hex_cell_vec(v, w),
        CellKind::RawDec => raw_cell_vec(v, sep),
        CellKind::RawHex => raw_hex_cell_vec(v, sep),
    }
}

/// Append the table's row lines to the line buffer.
pub fn push_table_lines(
    kind: CellKind,
    table: &Vec<DutyCycle>,
    width: usize,
    w: usize,
    sep: &Vec<u8>,
    out: &mut Vec<Vec<u8>>,
)
    requires
        width > 0,
    ensures
        final(out).deep_view() == old(out).deep_view() + table_lines(
            kind,
            table@,
            width as int,
            w as int,
            sep@,
        ),
{
    let ghost base = old(out).deep_view();
    let ghost whole = table_lines(kind, table@, width as int, w as int, sep@);
    let mut pos: usize = 0;
    proof {
        assert(table@.skip(0) =~= table@);
        assert(base + whole =~= out.deep_view() + table_lines(
            kind,
            table@.skip(0),
            width as int,
            w as int,
            sep@,
        ));
    }
    while pos < table.len()
        invariant
            pos <= table@.len(),
            width > 0,
            base + whole == out.deep_view() + table_lines(
                kind,
                table@.skip(pos as int),
                width as int,
                w as int,
                sep@,
            ),
            whole == table_lines(kind, table@, width as int, w as int, sep@),
        decreases table@.len() - pos,
    {
        let ghost rem = table@.skip(pos as int);
        let chunk_end = if table.len() - pos > width {
            pos + width
        } else {
            table.len()
        };
        let ghost chunk = rem.take(chunk_end - pos);
        // Build one row line.
        let mut line: Vec<u8> = Vec::new();
        if matches!(kind, CellKind::DecAligned | CellKind::HexPadded) {
            line.push(32);
            line.push(32);
            line.push(32);
            line.push(32);
        }
        proof {
            assert(line@ =~= row_prefix(kind));
            assert(chunk.skip(0) =~= chunk);
            assert(line@ + row_of(kind, chunk.skip(0), w as int, sep@) =~= row_prefix(kind)
                + row_of(kind, chunk, w as int, sep@));
        }
        let ghost lbase = line@;
        let mut j: usize = pos;
        while j < chunk_end
            invariant
                pos <= j <= chunk_end <= table@.len(),
                chunk == table@.skip(pos as int).take(chunk_end - pos),
                lbase == row_prefix(kind),
                lbase + row_of(kind, chunk, w as int, sep@) == line@ + row_of(
                    kind,
                    chunk.skip(j - pos),
                    w as int,
                    sep@,
                ),
            decreases chunk_end - j,
        {
            let ghost crem = chunk.skip(j - pos);
            proof {
                assert(crem[0] == table@[j as int]);
                assert(crem.drop_first() =~= chunk.skip(j + 1 - pos));
            }
            let cv = cell_vec(kind, table[j], w, sep);
            append_bytes(&mut line, &cv);
            j = j + 1;
        }
        proof {
            assert(chunk.skip(chunk_end - pos) =~= Seq::<DutyCycle>::empty());
            assert(row_of(kind, chunk.skip(chunk_end - pos), w as int, sep@) =~= Seq::<u8>::empty());
            assert(line@ + Seq::<u8>::empty() =~= line@);
            assert(line@ == row_prefix(kind) + row_of(kind, chunk, w as int, sep@));
        }
        let ghost pre = out.deep_view();
        out.push(line);
        proof {
            assert(out.deep_view() =~~= pre.push(row_prefix(kind) + row_of(
                kind,
                chunk,
                w as int,
                sep@,
            )));
            if rem.len() <= width as int {
                assert(chunk =~= rem);
                assert(table_lines(kind, rem, width as int, w as int, sep@) == seq![
                    row_prefix(kind) + row_of(kind, rem, w as int, sep@),
                ]);
                assert(table@.skip(chunk_end as int) =~= Seq::<DutyCycle>::empty());
                assert(table_lines(
                    kind,
                    table@.skip(chunk_end as int),
                    width as int,
                    w as int,
                    sep@,
                ) =~= Seq::<Seq<u8>>::empty());
            } else {
                assert(chunk =~= rem.take(width as int));
                assert(rem.skip(width as int) =~= table@.skip(chunk_end as int));
                assert(table_lines(kind, rem, width as int, w as int, sep@) == seq![
                    row_prefix(kind) + row_of(kind, rem.take(width as int), w as int, sep@),
                ] + table_lines(
                    kind,
                    table@.skip(chunk_end as int),
                    width as int,
                    w as int,
                    sep@,
                ));
            }
            assert(base + whole =~= out.deep_view() + table_lines(
                kind,
                table@.skip(chunk_end as int),
                width as int,
                w as int,
                sep@,
            ));
        }
        pos = chunk_end;
    }
    proof {
        assert(table_lines(kind, table@.skip(pos as int), width as int, w as int, sep@) =~= Seq::<
            Seq<u8>,
        >::empty());
        assert(out.deep_view() + table_lines(
            kind,
            table@.skip(pos as int),
            width as int,
            w as int,
            sep@,
        ) =~= out.deep_view());
    }
}

/// Append copies of all lines of `src`.
pub fn append_lines(dst: &mut Vec<Vec<u8>>, src: &Vec<Vec<u8>>)
    ensures
        final(dst).deep_view() == old(dst).deep_view() + src.deep_view(),
{
    let ghost base = dst.deep_view();
    let mut i: usize = 0;
    proof {
        assert(base + src.deep_view().take(0) =~= base);
    }
    while i < src.len()
        invariant
            i <= src@.len(),
            dst.deep_view() == base + src.deep_view().take(i as int),
        decreases src@.len() - i,
    {
        let ghost pre = dst.deep_view();
        let line = copy_bytes(&src[i]);
        proof {
            assert(src@[i as int].deep_view() =~= src@[i as int]@);
        }
        dst.push(line);
        proof {
            assert(dst.deep_view() =~~= pre.push(src.deep_view()[i as int]));
            assert(pre.push(src.deep_view()[i as int]) =~= base + src.deep_view().take(i + 1));
        }
        i = i + 1;
    }
    proof {
        assert(src.deep_view().take(src@.len() as int) =~= src.deep_view());
    }
}

/// The full rewrite protocol over computed content: leading lines, then for
/// every block a marker pair (with any preserved text) followed by the
/// block, then the orphaned sections, then trailing lines — joined to bytes.
pub fn merge_blocks(
    lead: &Vec<Vec<u8>>,
    blocks: &Vec<Vec<Vec<u8>>>,
    trail: &Vec<Vec<u8>>,
    sections: &UserSection,
) -> (r: Vec<u8>)
    requires
        blocks@.len() <= i32::MAX,
    ensures
        r@ == join_lines(
            lead.deep_view() + points_lines(sections.reg(), blocks.deep_view(), 0) + remains_lines(
                sections.reg(),
                blocks.deep_view().len() as int,
            ) + trail.deep_view(),
        ),
{
    let ghost reg = sections.reg();
    let ghost bls = blocks.deep_view();
    let mut lines: Vec<Vec<u8>> = Vec::new();
    proof {
        assert(lines.deep_view() =~~= Seq::<Seq<u8>>::empty());
    }
    append_lines(&mut lines, lead);
    proof {
        assert(Seq::<Seq<u8>>::empty() + lead.deep_view() =~= lead.deep_view());
    }
    let mut i: usize = 0;
    proof {
        assert(lead.deep_view() + points_lines(reg, bls, 0) =~= lines.deep_view() + points_lines(
            reg,
            bls,
            0,
        ));
    }
    while i < blocks.len()
        invariant
            i <= blocks@.len(),
            blocks@.len() <= i32::MAX,
            reg == sections.reg(),
            bls == blocks.deep_view(),
            bls.len() == blocks@.len(),
            lead.deep_view() + points_lines(reg, bls, 0) == lines.deep_view() + points_lines(
                reg,
                bls,
                i as int,
            ),
        decreases blocks@.len() - i,
    {
        proof {
            assert(points_lines(reg, bls, i as int) == pair_lines(reg, i as int) + bls[i as int]
                + points_lines(reg, bls, i as int + 1));
        }
        sections.write(i as i32, &mut lines);
        let ghost mid = lines.deep_view();
        append_lines(&mut lines, &blocks[i]);
        proof {
            assert(blocks@[i as int].deep_view() =~~= bls[i as int]);
            assert(lines.deep_view() =~= mid + bls[i as int]);
            assert(lines.deep_view() + points_lines(reg, bls, i as int + 1) =~= lead.deep_view()
                + points_lines(reg, bls, 0));
        }
        i = i + 1;
    }
    proof {
        assert(points_lines(reg, bls, bls.len() as int) =~= Seq::<Seq<u8>>::empty());
        assert(lines.deep_view() =~= lead.deep_view() + points_lines(reg, bls, 0));
    }
    sections.write_remains(blocks.len() as i32, &mut lines);
    append_lines(&mut lines, trail);
    proof {
        assert(lines.deep_view() =~= lead.deep_view() + points_lines(reg, bls, 0) + remains_lines(
            reg,
            bls.len() as int,
        ) + trail.deep_view());
    }
    join_lines_vec(&lines)
}

/// Parameters shared by all renderers: a name token, a cell separator, the
/// row width, and the complementary-table pad in seconds if one is wanted.
#[derive(Debug, Clone)]
pub struct FormatArgs {
    pub name: Vec<u8>,
    pub separator: Vec<u8>,
    pub width: usize,
    pub inverter: Option<Ratio>,
}

/// A rational shown the way the generator names frequencies: the plain
/// integer when the fraction is whole, else `num/den`.
pub open spec fn ratio_display(r: Ratio) -> Seq<u8> {
    if r.num as int % r.den as int == 0 {
        dec_nat(r.num as int / r.den as int)
    } else {
        dec_nat(r.num as int) + seq![47u8] + dec_nat(r.den as int)
    }
}

/// Render a rational as the generator names it.
pub fn ratio_to_dec(r: Ratio) -> (out: Vec<u8>)
    requires
        r.wf(),
    ensures
        out@ == ratio_display(r),
{
    if r.num % r.den == 0 {
        u64_to_dec(r.num / r.den)
    } else {
        let mut v = u64_to_dec(r.num);
        v.push(47);
        let dv = u64_to_dec(r.den);
        append_bytes(&mut v, &dv);
        proof {
            assert(v@ =~= ratio_display(r));
        }
        v
    }
}

/// `#include <stdint.h>`
pub open spec fn include_line() -> Seq<u8> {
    seq![
        35u8,
        105u8,
        110u8,
        99u8,
        108u8,
        117u8,
        100u8,
        101u8,
        32u8,
        60u8,
        115u8,
        116u8,
        100u8,
        105u8,
        110u8,
        116u8,
        46u8,
        104u8,
        62u8,
    ]
}

/// `#define` and two spaces.
pub open spec fn define_prefix() -> Seq<u8> {
    seq![35u8, 100u8, 101u8, 102u8, 105u8, 110u8, 101u8, 32u8, 32u8]
}

/// `_CARRIER_FREQ` and four spaces.
pub open spec fn carrier_suffix() -> Seq<u8> {
    seq![
        95u8,
        67u8,
        65u8,
        82u8,
        82u8,
        73u8,
        69u8,
        82u8,
        95u8,
        70u8,
        82u8,
        69u8,
        81u8,
        32u8,
        32u8,
        32u8,
        32u8,
    ]
}

/// `_LEN` and thirteen spaces.
pub open spec fn len_mid() -> Seq<u8> {
    seq![
        95u8,
        76u8,
        69u8,
        78u8,
        32u8,
        32u8,
        32u8,
        32u8,
        32u8,
        32u8,
        32u8,
        32u8,
        32u8,
        32u8,
        32u8,
        32u8,
        32u8,
    ]
}

/// `_LEN`
pub open spec fn len_token() -> Seq<u8> {
    seq![95u8, 76u8, 69u8, 78u8]
}

/// `const `
pub open spec fn const_prefix() -> Seq<u8> {
    seq![99u8, 111u8, 110u8, 115u8, 116u8, 32u8]
}

/// `_NOT`
pub open spec fn not_token() -> Seq<u8> {
    seq![95u8, 78u8, 79u8, 84u8]
}

/// The C element type of a table whose top value needs 8, 16 or 32 bits.
pub open spec fn c_ty_of(top: int) -> Seq<u8> {
    if top >= 65536 {
        seq![117u8, 105u8, 110u8, 116u8, 51u8, 50u8, 95u8, 116u8]
    } else if top >= 256 {
        seq![117u8, 105u8, 110u8, 116u8, 49u8, 54u8, 95u8, 116u8]
    } else {
        seq![117u8, 105u8, 110u8, 116u8, 56u8, 95u8, 116u8]
    }
}

/// The Rust element type of a table whose top value needs 8, 16 or 32 bits.
pub open spec fn rust_ty_of(top: int) -> Seq<u8> {
    if top >= 65536 {
        seq![117u8, 51u8, 50u8]
    } else if top >= 256 {
        seq![117u8, 49u8, 54u8]
    } else {
        seq![117u8, 56u8]
    }
}

/// Decimal column width by element size.
pub open spec fn dec_w_of(top: int) -> int {
    if top >= 65536 {
        6
    } else if top >= 256 {
        5
    } else {
        3
    }
}

/// Hexadecimal digit count by element size.
pub open spec fn hex_w_of(top: int) -> int {
    if top >= 65536 {
        8
    } else if top >= 256 {
        4
    } else {
        2
    }
}

/// The variable name a table is written under: `{name}_{freq}HZ`.
pub open spec fn name_tag(name: Seq<u8>, freq: Ratio) -> Seq<u8> {
    name + seq![95u8] + ratio_display(freq) + seq![72u8, 90u8]
}

pub fn name_tag_vec(name: &Vec<u8>, freq: Ratio) -> (r: Vec<u8>)
    requires
        freq.wf(),
    ensures
        r@ == name_tag(name@, freq),
{
    let mut v = copy_bytes(name);
    v.push(95);
    let fd = ratio_to_dec(freq);
    append_bytes(&mut v, &fd);
    v.push(72);
    v.push(90);
    proof {
        assert(v@ =~= name_tag(name@, freq));
    }
    v
}

/// A C `#define` line: name tag, suffix, value.
pub open spec fn c_define_line(tag: Seq<u8>, suffix: Seq<u8>, value: Seq<u8>) -> Seq<u8> {
    define_prefix() + tag + suffix + value
}

/// The head of a C table: `const {ty} {tag}[{tag}_LEN] = {`; the
/// complementary table's name carries `_NOT`, its length macro does not.
pub open spec fn c_array_head(ty: Seq<u8>, tag: Seq<u8>, not: bool) -> Seq<u8> {
    const_prefix() + ty + seq![32u8] + tag + (if not {
        not_token()
    } else {
        Seq::<u8>::empty()
    }) + seq![91u8] + tag + len_token() + seq![93u8, 32u8, 61u8, 32u8, 123u8]
}

/// The head of a Rust table: `const {tag}[{ty}; {len}] = [`.
pub open spec fn rust_array_head(ty: Seq<u8>, tag: Seq<u8>, len: int, not: bool) -> Seq<u8> {
    const_prefix() + tag + (if not {
        not_token()
    } else {
        Seq::<u8>::empty()
    }) + seq![91u8] + ty + seq![59u8, 32u8] + dec_nat(len) + seq![93u8, 32u8, 61u8, 32u8, 91u8]
}

/// `};`
pub open spec fn c_close() -> Seq<u8> {
    seq![125u8, 59u8]
}

/// `];`
pub open spec fn rust_close() -> Seq<u8> {
    seq![93u8, 59u8]
}
/// Copy a byte array into a vector.
fn arr_vec<const N: usize>(src: &[u8; N]) -> (r: Vec<u8>)
    ensures
        r@ == src@,
{
    let mut r: Vec<u8> = Vec::new();
    let mut i: usize = 0;
    while i < N
        invariant
            i <= N,
            src@.len() == N,
            r@ == src@.take(i as int),
        decreases N - i,
    {
        proof {
            assert(src@.take(i as int).push(src@[i as int]) =~= src@.take(i + 1));
        }
        r.push(src[i]);
        i = i + 1;
    }
    proof {
        assert(src@.take(N as int) =~= src@);
    }
    r
}

/// Push one line into the line buffer.
fn push_line(out: &mut Vec<Vec<u8>>, line: Vec<u8>)
    ensures
        final(out).deep_view() == old(out).deep_view().push(line@),
{
    let ghost pre = out.deep_view();
    let ghost lv = line@;
    out.push(line);
    proof {
        assert(out.deep_view() =~~= pre.push(lv));
    }
}

/// What every renderer asks of its inputs: a well-formed instance, one
/// sample per table entry, samples the wave can take, and room for the
/// quantization arithmetic.
pub open spec fn render_pre(spwm: SPWM, samples: Seq<i64>, scale: u64, width: usize) -> bool {
    &&& spwm.wf()
    &&& scale > 0
    &&& width > 0
    &&& samples.len() == spwm.num_of_samples
    &&& (forall|i: int|
        0 <= i < samples.len() ==> spwm.pwm.sample_in_range(
            SRatio { num: samples[i], den: scale },
        ))
    &&& spwm.pwm.sample_fits(scale as int)
}

/// What the complementary table asks: a well-formed pad whose offset
/// arithmetic fits.
pub open spec fn inverter_pre(spwm: SPWM, inverter: Option<Ratio>) -> bool {
    match inverter {
        Some(p) => p.wf() && p.num * (spwm.pwm.spec_pwm_top() * spwm.step.den) <= u128::MAX,
        None => true,
    }
}

/// The complementary table the renderer emits, if a pad was given.
pub open spec fn spec_ntable(spwm: SPWM, table: Seq<DutyCycle>, inverter: Option<Ratio>) -> Option<
    Seq<DutyCycle>,
> {
    match inverter {
        Some(p) => Some(
            spec_table_not(
                table,
                spec_pad_offset(p, spwm.pwm.spec_pwm_top() as int, spwm.step),
                spwm.pwm.spec_pwm_top(),
            ),
        ),
        None => None,
    }
}

/// The lines of a generated C file: the include, then four insertion points
/// carrying the defines, the table, the complementary table, and a closing
/// point, then orphaned sections, then a blank line.
pub open spec fn c_file_lines(
    hexmode: bool,
    name: Seq<u8>,
    freq: Ratio,
    carrier: Ratio,
    top: int,
    table: Seq<DutyCycle>,
    ntable: Option<Seq<DutyCycle>>,
    width: int,
    reg: Registry,
) -> Seq<Seq<u8>> {
    let ty = c_ty_of(top);
    let w = if hexmode {
        hex_w_of(top)
    } else {
        dec_w_of(top)
    };
    let kind = if hexmode {
        CellKind::HexPadded
    } else {
        CellKind::DecAligned
    };
    let tag = name_tag(name, freq);
    let b0 = seq![
        c_define_line(tag, carrier_suffix(), ratio_display(carrier)),
        Seq::<u8>::empty(),
        c_define_line(tag, len_mid(), dec_nat(table.len() as int)),
        Seq::<u8>::empty(),
    ];
    let b1 = seq![c_array_head(ty, tag, false)] + table_lines(
        kind,
        table,
        width,
        w,
        Seq::empty(),
    ) + seq![c_close(), Seq::<u8>::empty(), Seq::<u8>::empty()];
    let b2 = match ntable {
        Some(nt) => seq![c_array_head(ty, tag, true)] + table_lines(
            CellKind::HexPadded,
            nt,
            width,
            w,
            Seq::empty(),
        ) + seq![c_close(), Seq::<u8>::empty(), Seq::<u8>::empty()],
        None => Seq::<Seq<u8>>::empty(),
    };
    let blocks = seq![b0, b1, b2, Seq::<Seq<u8>>::empty()];
    seq![include_line(), Seq::<u8>::empty(), Seq::<u8>::empty()] + points_lines(reg, blocks, 0)
        + remains_lines(reg, 4) + seq![Seq::<u8>::empty()]
}

/// The lines of a generated Rust file: three insertion points carrying the
/// table, the complementary table, and a closing point, then orphaned
/// sections.
pub open spec fn rust_file_lines(
    hexmode: bool,
    name: Seq<u8>,
    freq: Ratio,
    top: int,
    table: Seq<DutyCycle>,
    ntable: Option<Seq<DutyCycle>>,
    width: int,
    reg: Registry,
) -> Seq<Seq<u8>> {
    let ty = rust_ty_of(top);
    let w = if hexmode {
        hex_w_of(top)
    } else {
        dec_w_of(top)
    };
    let kind = if hexmode {
        CellKind::HexPadded
    } else {
        CellKind::DecAligned
    };
    let tag = name_tag(name, freq);
    let b0 = seq![rust_array_head(ty, tag, table.len() as int, false)] + table_lines(
        kind,
        table,
        width,
        w,
        Seq::empty(),
    ) + seq![rust_close()];
    let b1 = match ntable {
        Some(nt) => seq![rust_array_head(ty, tag, nt.len() as int, true)] + table_lines(
            kind,
            nt,
            width,
            w,
            Seq::empty(),
        ) + seq![rust_close()],
        None => Seq::<Seq<u8>>::empty(),
    };
    let blocks = seq![b0, b1, Seq::<Seq<u8>>::empty()];
    points_lines(reg, blocks, 0) + remains_lines(reg, 3)
}

/// The lines of a raw hexadecimal dump: two insertion points around the rows,
/// then orphaned sections.
pub open spec fn raw_hex_file_lines(
    table: Seq<DutyCycle>,
    width: int,
    sep: Seq<u8>,
    reg: Registry,
) -> Seq<Seq<u8>> {
    let blocks = seq![
        table_lines(CellKind::RawHex, table, width, 0, sep),
        Seq::<Seq<u8>>::empty(),
    ];
    points_lines(reg, blocks, 0) + remains_lines(reg, 2)
}

/// The lines of a raw decimal dump: just the rows.
pub open spec fn raw_file_lines(table: Seq<DutyCycle>, width: int, sep: Seq<u8>) -> Seq<Seq<u8>> {
    table_lines(CellKind::RawDec, table, width, 0, sep)
}

fn build_c_define(tag: &Vec<u8>, suffix: Vec<u8>, value: Vec<u8>) -> (r: Vec<u8>)
    ensures
        r@ == c_define_line(tag@, suffix@, value@),
{
    let mut l = arr_vec(&[35u8, 100, 101, 102, 105, 110, 101, 32, 32]);
    proof {
        assert(l@ =~= define_prefix());
    }
    append_bytes(&mut l, tag);
    append_bytes(&mut l, &suffix);
    append_bytes(&mut l, &value);
    l
}

fn build_c_head(ty: &Vec<u8>, tag: &Vec<u8>, not: bool) -> (r: Vec<u8>)
    ensures
        r@ == c_array_head(ty@, tag@, not),
{
    let mut l = arr_vec(&[99u8, 111, 110, 115, 116, 32]);
    proof {
        assert(l@ =~= const_prefix());
    }
    append_bytes(&mut l, ty);
    l.push(32);
    append_bytes(&mut l, tag);
    if not {
        let n = arr_vec(&[95u8, 78, 79, 84]);
        proof {
            assert(n@ =~= not_token());
        }
        append_bytes(&mut l, &n);
    }
    l.push(91);
    append_bytes(&mut l, tag);
    let lt = arr_vec(&[95u8, 76, 69, 78]);
    proof {
        assert(lt@ =~= len_token());
    }
    append_bytes(&mut l, &lt);
    let cl = arr_vec(&[93u8, 32, 61, 32, 123]);
    append_bytes(&mut l, &cl);
    proof {
        assert(cl@ =~= seq![93u8, 32u8, 61u8, 32u8, 123u8]);
        if not {
            assert(l@ =~= c_array_head(ty@, tag@, not));
        } else {
            assert(const_prefix() + ty@ + seq![32u8] + tag@ + Seq::<u8>::empty() =~= const_prefix()
                + ty@ + seq![32u8] + tag@);
            assert(l@ =~= c_array_head(ty@, tag@, not));
        }
    }
    l
}

fn build_rust_head(ty: &Vec<u8>, tag: &Vec<u8>, len: usize, not: bool) -> (r: Vec<u8>)
    ensures
        r@ == rust_array_head(ty@, tag@, len as int, not),
{
    let mut l = arr_vec(&[99u8, 111, 110, 115, 116, 32]);
    proof {
        assert(l@ =~= const_prefix());
    }
    append_bytes(&mut l, tag);
    if not {
        let n = arr_vec(&[95u8, 78, 79, 84]);
        proof {
            assert(n@ =~= not_token());
        }
        append_bytes(&mut l, &n);
    }
    l.push(91);
    append_bytes(&mut l, ty);
    l.push(59);
    l.push(32);
    let ld = u64_to_dec(len as u64);
    append_bytes(&mut l, &ld);
    let cl = arr_vec(&[93u8, 32, 61, 32, 91]);
    append_bytes(&mut l, &cl);
    proof {
        assert(cl@ =~= seq![93u8, 32u8, 61u8, 32u8, 91u8]);
        if not {
            assert(l@ =~= rust_array_head(ty@, tag@, len as int, not));
        } else {
            assert(const_prefix() + tag@ + Seq::<u8>::empty() =~= const_prefix() + tag@);
            assert(l@ =~= rust_array_head(ty@, tag@, len as int, not));
        }
    }
    l
}

fn c_ty_vec(top: DutyCycle) -> (r: Vec<u8>)
    ensures
        r@ == c_ty_of(top as int),
{
    if top >= 65536 {
        let v = arr_vec(&[117u8, 105, 110, 116, 51, 50, 95, 116]);
        proof {
            assert(v@ =~= c_ty_of(top as int));
        }
        v
    } else if top >= 256 {
        let v = arr_vec(&[117u8, 105, 110, 116, 49, 54, 95, 116]);
        proof {
            assert(v@ =~= c_ty_of(top as int));
        }
        v
    } else {
        let v = arr_vec(&[117u8, 105, 110, 116, 56, 95, 116]);
        proof {
            assert(v@ =~= c_ty_of(top as int));
        }
        v
    }
}

fn rust_ty_vec(top: DutyCycle) -> (r: Vec<u8>)
    ensures
        r@ == rust_ty_of(top as int),
{
    if top >= 65536 {
        let v = arr_vec(&[117u8, 51, 50]);
        proof {
            assert(v@ =~= rust_ty_of(top as int));
        }
        v
    } else if top >= 256 {
        let v = arr_vec(&[117u8, 49, 54]);
        proof {
            assert(v@ =~= rust_ty_of(top as int));
        }
        v
    } else {
        let v = arr_vec(&[117u8, 56]);
        proof {
            assert(v@ =~= rust_ty_of(top as int));
        }
        v
    }
}

/// The C renderers, decimal and hexadecimal.
fn c_write(
    hexmode: bool,
    spwm: &SPWM,
    samples: &Vec<i64>,
    scale: u64,
    old_content: &Vec<u8>,
    args: &FormatArgs,
) -> (r: Result<Vec<u8>, SpwmError>)
    requires
        render_pre(*spwm, samples@, scale, args.width),
        inverter_pre(*spwm, args.inverter),
    ensures
        r matches Ok(bytes) ==> spec_scan(old_content@).1 is Idle && bytes@ == join_lines(
            c_file_lines(
                hexmode,
                args.name@,
                spwm.pwm.wave.spec_freq(),
                Ratio { num: spwm.step.den, den: spwm.step.num },
                spwm.pwm.spec_pwm_top() as int,
                spwm.spec_table(samples@, scale as int),
                spec_ntable(*spwm, spwm.spec_table(samples@, scale as int), args.inverter),
                args.width as int,
                spec_scan(old_content@).0,
            ),
        ),
        r matches Err(e) ==> (spec_scan(old_content@).1 matches ScanState::InSection(idx, _) && e
            == (SpwmError::UnterminatedSection { index: idx as i32 })),
{
    let sections = match UserSection::read_user_reign(old_content) {
        Ok(u) => u,
        Err(e) => {
            return Err(e);
        },
    };
    let ghost reg = sections.reg();
    let table = spwm.lookup_table(samples, scale);
    let top = spwm.pwm_top();
    let ty = c_ty_vec(top);
    let pw: usize = if hexmode {
        if top >= 65536 {
            8
        } else if top >= 256 {
            4
        } else {
            2
        }
    } else {
        if top >= 65536 {
            6
        } else if top >= 256 {
            5
        } else {
            3
        }
    };
    let kind = if hexmode {
        CellKind::HexPadded
    } else {
        CellKind::DecAligned
    };
    let tag = name_tag_vec(&args.name, spwm.sin_freq());
    let empty_sep: Vec<u8> = Vec::new();
    let ghost tagv = tag@;
    let ghost tyv = ty@;

    // lead: include line and two blank lines
    let mut lead: Vec<Vec<u8>> = Vec::new();
    let inc = arr_vec(&[35u8, 105, 110, 99, 108, 117, 100, 101, 32, 60, 115, 116, 100, 105, 110,
        116, 46, 104, 62]);
    proof {
        assert(inc@ =~= include_line());
    }
    push_line(&mut lead, inc);
    push_line(&mut lead, Vec::new());
    push_line(&mut lead, Vec::new());
    proof {
        assert(lead.deep_view() =~~= seq![
            include_line(),
            Seq::<u8>::empty(),
            Seq::<u8>::empty(),
        ]);
    }

    // block 0: the two defines
    let mut b0: Vec<Vec<u8>> = Vec::new();
    let cs = arr_vec(&[95u8, 67, 65, 82, 82, 73, 69, 82, 95, 70, 82, 69, 81, 32, 32, 32, 32]);
    proof {
        assert(cs@ =~= carrier_suffix());
    }
    let carrier = spwm.carrier_freq();
    let cd = ratio_to_dec(carrier);
    push_line(&mut b0, build_c_define(&tag, cs, cd));
    push_line(&mut b0, Vec::new());
    let lm = arr_vec(&[95u8, 76, 69, 78, 32, 32, 32, 32, 32, 32, 32, 32, 32, 32, 32, 32, 32]);
    proof {
        assert(lm@ =~= len_mid());
    }
    let ld = u64_to_dec(table.len() as u64);
    push_line(&mut b0, build_c_define(&tag, lm, ld));
    push_line(&mut b0, Vec::new());
    let ghost b0v = seq![
        c_define_line(tagv, carrier_suffix(), ratio_display(carrier)),
        Seq::<u8>::empty(),
        c_define_line(tagv, len_mid(), dec_nat(table@.len() as int)),
        Seq::<u8>::empty(),
    ];
    proof {
        assert(b0.deep_view() =~~= b0v);
    }

    // block 1: the table
    let mut b1: Vec<Vec<u8>> = Vec::new();
    push_line(&mut b1, build_c_head(&ty, &tag, false));
    proof {
        assert(b1.deep_view() =~~= seq![c_array_head(tyv, tagv, false)]);
    }
    push_table_lines(kind, &table, args.width, pw, &empty_sep, &mut b1);
    let cc = arr_vec(&[125u8, 59]);
    proof {
        assert(cc@ =~= c_close());
    }
    push_line(&mut b1, cc);
    push_line(&mut b1, Vec::new());
    push_line(&mut b1, Vec::new());
    let ghost w_spec: int = if hexmode {
        hex_w_of(top as int)
    } else {
        dec_w_of(top as int)
    };
    let ghost b1v = seq![c_array_head(tyv, tagv, false)] + table_lines(
        kind,
        table@,
        args.width as int,
        w_spec,
        Seq::empty(),
    ) + seq![c_close(), Seq::<u8>::empty(), Seq::<u8>::empty()];
    proof {
        assert(empty_sep@ =~= Seq::<u8>::empty());
        assert(pw as int == w_spec);
        assert(b1.deep_view() =~~= b1v);
    }

    // block 2: the complementary table, if asked for
    let mut b2: Vec<Vec<u8>> = Vec::new();
    if let Some(pad) = args.inverter {
        let nt = spwm.table_not(&table, pad);
        push_line(&mut b2, build_c_head(&ty, &tag, true));
        push_table_lines(CellKind::HexPadded, &nt, args.width, pw, &empty_sep, &mut b2);
        let cc2 = arr_vec(&[125u8, 59]);
        proof {
            assert(cc2@ =~= c_close());
        }
        push_line(&mut b2, cc2);
        push_line(&mut b2, Vec::new());
        push_line(&mut b2, Vec::new());
    }
    let ghost b2v = match spec_ntable(*spwm, table@, args.inverter) {
        Some(nt) => seq![c_array_head(tyv, tagv, true)] + table_lines(
            CellKind::HexPadded,
            nt,
            args.width as int,
            w_spec,
            Seq::empty(),
        ) + seq![c_close(), Seq::<u8>::empty(), Seq::<u8>::empty()],
        None => Seq::<Seq<u8>>::empty(),
    };
    proof {
        assert(b2.deep_view() =~~= b2v);
    }

    let mut blocks: Vec<Vec<Vec<u8>>> = Vec::new();
    blocks.push(b0);
    blocks.push(b1);
    blocks.push(b2);
    blocks.push(Vec::new());
    let ghost blocksv = seq![b0v, b1v, b2v, Seq::<Seq<u8>>::empty()];
    proof {
        assert(blocks.deep_view() =~~= blocksv);
    }

    let mut trail: Vec<Vec<u8>> = Vec::new();
    push_line(&mut trail, Vec::new());
    proof {
        assert(trail.deep_view() =~~= seq![Seq::<u8>::empty()]);
    }

    let bytes = merge_blocks(&lead, &blocks, &trail, &sections);
    proof {
        assert(bytes@ == join_lines(
            c_file_lines(
                hexmode,
                args.name@,
                spwm.pwm.wave.spec_freq(),
                Ratio { num: spwm.step.den, den: spwm.step.num },
                spwm.pwm.spec_pwm_top() as int,
                spwm.spec_table(samples@, scale as int),
                spec_ntable(*spwm, spwm.spec_table(samples@, scale as int), args.inverter),
                args.width as int,
                reg,
            ),
        ));
    }
    Ok(bytes)
}

/// The Rust renderers, decimal and hexadecimal.
fn rust_write(
    hexmode: bool,
    spwm: &SPWM,
    samples: &Vec<i64>,
    scale: u64,
    old_content: &Vec<u8>,
    args: &FormatArgs,
) -> (r: Result<Vec<u8>, SpwmError>)
    requires
        render_pre(*spwm, samples@, scale, args.width),
        inverter_pre(*spwm, args.inverter),
    ensures
        r matches Ok(bytes) ==> spec_scan(old_content@).1 is Idle && bytes@ == join_lines(
            rust_file_lines(
                hexmode,
                args.name@,
                spwm.pwm.wave.spec_freq(),
                spwm.pwm.spec_pwm_top() as int,
                spwm.spec_table(samples@, scale as int),
                spec_ntable(*spwm, spwm.spec_table(samples@, scale as int), args.inverter),
                args.width as int,
                spec_scan(old_content@).0,
            ),
        ),
        r matches Err(e) ==> (spec_scan(old_content@).1 matches ScanState::InSection(idx, _) && e
            == (SpwmError::UnterminatedSection { index: idx as i32 })),
{
    let sections = match UserSection::read_user_reign(old_content) {
        Ok(u) => u,
        Err(e) => {
            return Err(e);
        },
    };
    let ghost reg = sections.reg();
    let table = spwm.lookup_table(samples, scale);
    let top = spwm.pwm_top();
    let ty = rust_ty_vec(top);
    let pw: usize = if hexmode {
        if top >= 65536 {
            8
        } else if top >= 256 {
            4
        } else {
            2
        }
    } else {
        if top >= 65536 {
            6
        } else if top >= 256 {
            5
        } else {
            3
        }
    };
    let kind = if hexmode {
        CellKind::HexPadded
    } else {
        CellKind::DecAligned
    };
    let tag = name_tag_vec(&args.name, spwm.sin_freq());
    let empty_sep: Vec<u8> = Vec::new();
    let ghost tagv = tag@;
    let ghost tyv = ty@;
    let ghost w_spec: int = if hexmode {
        hex_w_of(top as int)
    } else {
        dec_w_of(top as int)
    };

    let mut b0: Vec<Vec<u8>> = Vec::new();
    push_line(&mut b0, build_rust_head(&ty, &tag, table.len(), false));
    proof {
        assert(b0.deep_view() =~~= seq![rust_array_head(tyv, tagv, table@.len() as int, false)]);
    }
    push_table_lines(kind, &table, args.width, pw, &empty_sep, &mut b0);
    let rc = arr_vec(&[93u8, 59]);
    proof {
        assert(rc@ =~= rust_close());
    }
    push_line(&mut b0, rc);
    let ghost b0v = seq![rust_array_head(tyv, tagv, table@.len() as int, false)] + table_lines(
        kind,
        table@,
        args.width as int,
        w_spec,
        Seq::empty(),
    ) + seq![rust_close()];
    proof {
        assert(empty_sep@ =~= Seq::<u8>::empty());
        assert(b0.deep_view() =~~= b0v);
    }

    let mut b1: Vec<Vec<u8>> = Vec::new();
    if let Some(pad) = args.inverter {
        let nt = spwm.table_not(&table, pad);
        push_line(&mut b1, build_rust_head(&ty, &tag, nt.len(), true));
        push_table_lines(kind, &nt, args.width, pw, &empty_sep, &mut b1);
        let rc2 = arr_vec(&[93u8, 59]);
        proof {
            assert(rc2@ =~= rust_close());
        }
        push_line(&mut b1, rc2);
    }
    let ghost b1v = match spec_ntable(*spwm, table@, args.inverter) {
        Some(nt) => seq![rust_array_head(tyv, tagv, nt.len() as int, true)] + table_lines(
            kind,
            nt,
            args.width as int,
            w_spec,
            Seq::empty(),
        ) + seq![rust_close()],
        None => Seq::<Seq<u8>>::empty(),
    };
    proof {
        assert(b1.deep_view() =~~= b1v);
    }

    let mut blocks: Vec<Vec<Vec<u8>>> = Vec::new();
    blocks.push(b0);
    blocks.push(b1);
    blocks.push(Vec::new());
    let ghost blocksv = seq![b0v, b1v, Seq::<Seq<u8>>::empty()];
    proof {
        assert(blocks.deep_view() =~~= blocksv);
    }
    let lead: Vec<Vec<u8>> = Vec::new();
    let trail: Vec<Vec<u8>> = Vec::new();
    let bytes = merge_blocks(&lead, &blocks, &trail, &sections);
    proof {
        assert(lead.deep_view() =~~= Seq::<Seq<u8>>::empty());
        assert(trail.deep_view() =~~= Seq::<Seq<u8>>::empty());
        assert(Seq::<Seq<u8>>::empty() + points_lines(reg, blocksv, 0) + remains_lines(reg, 3)
            + Seq::<Seq<u8>>::empty() =~= points_lines(reg, blocksv, 0) + remains_lines(reg, 3));
        assert(bytes@ == join_lines(
            rust_file_lines(
                hexmode,
                args.name@,
                spwm.pwm.wave.spec_freq(),
                spwm.pwm.spec_pwm_top() as int,
                spwm.spec_table(samples@, scale as int),
                spec_ntable(*spwm, spwm.spec_table(samples@, scale as int), args.inverter),
                args.width as int,
                reg,
            ),
        ));
    }
    Ok(bytes)
}

/// Renderer of plain decimal rows.
#[derive(Default)]
pub struct Raw;

impl Raw {
    /// Format the table as rows of right-aligned decimal values with the
    /// separator after each; no user sections take part.
    pub fn write(&self, spwm: &SPWM, samples: &Vec<i64>, scale: u64, args: &FormatArgs) -> (r: Vec<
        u8,
    >)
        requires
            render_pre(*spwm, samples@, scale, args.width),
        ensures
            r@ == join_lines(
                raw_file_lines(
                    spwm.spec_table(samples@, scale as int),
                    args.width as int,
                    args.separator@,
                ),
            ),
    {
        let table = spwm.lookup_table(samples, scale);
        let mut lines: Vec<Vec<u8>> = Vec::new();
        push_table_lines(CellKind::RawDec, &table, args.width, 0, &args.separator, &mut lines);
        proof {
            assert(Seq::<Seq<u8>>::empty() + table_lines(
                CellKind::RawDec,
                table@,
                args.width as int,
                0,
                args.separator@,
            ) =~= table_lines(CellKind::RawDec, table@, args.width as int, 0, args.separator@));
            assert(lines.deep_view() =~~= raw_file_lines(
                spwm.spec_table(samples@, scale as int),
                args.width as int,
                args.separator@,
            ));
        }
        join_lines_vec(&lines)
    }
}

/// Renderer of zero-padded hexadecimal rows with user sections around them.
#[derive(Default)]
pub struct RawHex;

impl RawHex {
    /// Format the table as rows of four-digit hexadecimal values, wrapped in
    /// two insertion points with any orphaned sections after them.
    pub fn write(
        &self,
        spwm: &SPWM,
        samples: &Vec<i64>,
        scale: u64,
        old_content: &Vec<u8>,
        args: &FormatArgs,
    ) -> (r: Result<Vec<u8>, SpwmError>)
        requires
            render_pre(*spwm, samples@, scale, args.width),
        ensures
            r matches Ok(bytes) ==> spec_scan(old_content@).1 is Idle && bytes@ == join_lines(
                raw_hex_file_lines(
                    spwm.spec_table(samples@, scale as int),
                    args.width as int,
                    args.separator@,
                    spec_scan(old_content@).0,
                ),
            ),
            r matches Err(e) ==> (spec_scan(old_content@).1 matches ScanState::InSection(idx, _)
                && e == (SpwmError::UnterminatedSection { index: idx as i32 })),
    {
        let sections = match UserSection::read_user_reign(old_content) {
            Ok(u) => u,
            Err(e) => {
                return Err(e);
            },
        };
        let ghost reg = sections.reg();
        let table = spwm.lookup_table(samples, scale);
        let mut b0: Vec<Vec<u8>> = Vec::new();
        push_table_lines(CellKind::RawHex, &table, args.width, 0, &args.separator, &mut b0);
        let ghost b0v = table_lines(
            CellKind::RawHex,
            table@,
            args.width as int,
            0,
            args.separator@,
        );
        proof {
            assert(Seq::<Seq<u8>>::empty() + b0v =~= b0v);
            assert(b0.deep_view() =~~= b0v);
        }
        let mut blocks: Vec<Vec<Vec<u8>>> = Vec::new();
        blocks.push(b0);
        blocks.push(Vec::new());
        let ghost blocksv = seq![b0v, Seq::<Seq<u8>>::empty()];
        proof {
            assert(blocks.deep_view() =~~= blocksv);
        }
        let lead: Vec<Vec<u8>> = Vec::new();
        let trail: Vec<Vec<u8>> = Vec::new();
        let bytes = merge_blocks(&lead, &blocks, &trail, &sections);
        proof {
            assert(lead.deep_view() =~~= Seq::<Seq<u8>>::empty());
            assert(trail.deep_view() =~~= Seq::<Seq<u8>>::empty());
            assert(Seq::<Seq<u8>>::empty() + points_lines(reg, blocksv, 0) + remains_lines(reg, 2)
                + Seq::<Seq<u8>>::empty() =~= points_lines(reg, blocksv, 0) + remains_lines(
                reg,
                2,
            ));
            assert(bytes@ == join_lines(
                raw_hex_file_lines(
                    spwm.spec_table(samples@, scale as int),
                    args.width as int,
                    args.separator@,
                    reg,
                ),
            ));
        }
        Ok(bytes)
    }
}

/// Renderer of a C source file with decimal table entries.
#[derive(Default)]
pub struct CFile;

impl CFile {
    /// Write the C file: include, defines, the decimal table, and the
    /// hexadecimal complementary table if a pad was given.
    pub fn write(
        &self,
        spwm: &SPWM,
        samples: &Vec<i64>,
        scale: u64,
        old_content: &Vec<u8>,
        args: &FormatArgs,
    ) -> (r: Result<Vec<u8>, SpwmError>)
        requires
            render_pre(*spwm, samples@, scale, args.width),
            inverter_pre(*spwm, args.inverter),
        ensures
            r matches Ok(bytes) ==> spec_scan(old_content@).1 is Idle && bytes@ == join_lines(
                c_file_lines(
                    false,
                    args.name@,
                    spwm.pwm.wave.spec_freq(),
                    Ratio { num: spwm.step.den, den: spwm.step.num },
                    spwm.pwm.spec_pwm_top() as int,
                    spwm.spec_table(samples@, scale as int),
                    spec_ntable(*spwm, spwm.spec_table(samples@, scale as int), args.inverter),
                    args.width as int,
                    spec_scan(old_content@).0,
                ),
            ),
            r matches Err(e) ==> (spec_scan(old_content@).1 matches ScanState::InSection(idx, _)
                && e == (SpwmError::UnterminatedSection { index: idx as i32 })),
    {
        c_write(false, spwm, samples, scale, old_content, args)
    }
}

/// Renderer of a C source file with hexadecimal table entries.
#[derive(Default)]
pub struct CHexFile;

impl CHexFile {
    /// Write the C file with both tables in hexadecimal.
    pub fn write(
        &self,
        spwm: &SPWM,
        samples: &Vec<i64>,
        scale: u64,
        old_content: &Vec<u8>,
        args: &FormatArgs,
    ) -> (r: Result<Vec<u8>, SpwmError>)
        requires
            render_pre(*spwm, samples@, scale, args.width),
            inverter_pre(*spwm, args.inverter),
        ensures
            r matches Ok(bytes) ==> spec_scan(old_content@).1 is Idle && bytes@ == join_lines(
                c_file_lines(
                    true,
                    args.name@,
                    spwm.pwm.wave.spec_freq(),
                    Ratio { num: spwm.step.den, den: spwm.step.num },
                    spwm.pwm.spec_pwm_top() as int,
                    spwm.spec_table(samples@, scale as int),
                    spec_ntable(*spwm, spwm.spec_table(samples@, scale as int), args.inverter),
                    args.width as int,
                    spec_scan(old_content@).0,
                ),
            ),
            r matches Err(e) ==> (spec_scan(old_content@).1 matches ScanState::InSection(idx, _)
                && e == (SpwmError::UnterminatedSection { index: idx as i32 })),
    {
        c_write(true, spwm, samples, scale, old_content, args)
    }
}

/// Renderer of a Rust source file with decimal table entries.
#[derive(Default)]
pub struct RustFile;

impl RustFile {
    /// Write the Rust file: the decimal table and the decimal complementary
    /// table if a pad was given.
    pub fn write(
        &self,
        spwm: &SPWM,
        samples: &Vec<i64>,
        scale: u64,
        old_content: &Vec<u8>,
        args: &FormatArgs,
    ) -> (r: Result<Vec<u8>, SpwmError>)
        requires
            render_pre(*spwm, samples@, scale, args.width),
            inverter_pre(*spwm, args.inverter),
        ensures
            r matches Ok(bytes) ==> spec_scan(old_content@).1 is Idle && bytes@ == join_lines(
                rust_file_lines(
                    false,
                    args.name@,
                    spwm.pwm.wave.spec_freq(),
                    spwm.pwm.spec_pwm_top() as int,
                    spwm.spec_table(samples@, scale as int),
                    spec_ntable(*spwm, spwm.spec_table(samples@, scale as int), args.inverter),
                    args.width as int,
                    spec_scan(old_content@).0,
                ),
            ),
            r matches Err(e) ==> (spec_scan(old_content@).1 matches ScanState::InSection(idx, _)
                && e == (SpwmError::UnterminatedSection { index: idx as i32 })),
    {
        rust_write(false, spwm, samples, scale, old_content, args)
    }
}

/// Renderer of a Rust source file with hexadecimal table entries.
#[derive(Default)]
pub struct RustHexFile;

impl RustHexFile {
    /// Write the Rust file with both tables in hexadecimal.
    pub fn write(
        &self,
        spwm: &SPWM,
        samples: &Vec<i64>,
        scale: u64,
        old_content: &Vec<u8>,
        args: &FormatArgs,
    ) -> (r: Result<Vec<u8>, SpwmError>)
        requires
            render_pre(*spwm, samples@, scale, args.width),
            inverter_pre(*spwm, args.inverter),
        ensures
            r matches Ok(bytes) ==> spec_scan(old_content@).1 is Idle && bytes@ == join_lines(
                rust_file_lines(
                    true,
                    args.name@,
                    spwm.pwm.wave.spec_freq(),
                    spwm.pwm.spec_pwm_top() as int,
                    spwm.spec_table(samples@, scale as int),
                    spec_ntable(*spwm, spwm.spec_table(samples@, scale as int), args.inverter),
                    args.width as int,
                    spec_scan(old_content@).0,
                ),
            ),
            r matches Err(e) ==> (spec_scan(old_content@).1 matches ScanState::InSection(idx, _)
                && e == (SpwmError::UnterminatedSection { index: idx as i32 })),
    {
        rust_write(true, spwm, samples, scale, old_content, args)
    }
}
proof fn lemma_rep_byte_at(b: u8, n: int)
    ensures
        rep_byte(b, n).len() == if n <= 0 {
            0int
        } else {
            n
        },
        forall|i: int| 0 <= i < rep_byte(b, n).len() ==> rep_byte(b, n)[i] == b,
    decreases n,
{
    if n > 0 {
        lemma_rep_byte_at(b, n - 1);
    }
}

/// An upper-case hexadecimal byte.
pub open spec fn is_hex_byte(b: u8) -> bool {
    (48 <= b && b <= 57) || (65 <= b && b <= 70)
}

proof fn lemma_hex_nat_digits(n: int)
    ensures
        hex_nat(n).len() >= 1,
        forall|i: int| 0 <= i < hex_nat(n).len() ==> is_hex_byte(#[trigger] hex_nat(n)[i]),
    decreases n,
{
    if n <= 0 {
    } else if n < 16 {
    } else {
        lemma_hex_nat_digits(n / 16);
        let s = hex_nat(n);
        assert(s == hex_nat(n / 16).push(hex_digit(n % 16)));
        assert forall|i: int| 0 <= i < s.len() implies is_hex_byte(#[trigger] s[i]) by {
            if i < s.len() - 1 {
                assert(s[i] == hex_nat(n / 16)[i]);
            } else {
                assert(s[i] == hex_digit(n % 16));
            }
        }
    }
}

/// A row of table cells never reads as a marker line: its first byte after
/// any alignment padding is a digit, never a slash.
proof fn lemma_row_line_no_marker(kind: CellKind, chunk: Seq<DutyCycle>, w: int, sep: Seq<u8>)
    requires
        chunk.len() >= 1,
    ensures
        begin_index_of(row_prefix(kind) + row_of(kind, chunk, w, sep)) is None,
{
    let line = row_prefix(kind) + row_of(kind, chunk, w, sep);
    let cell0 = cell_of(kind, chunk[0] as int, w, sep);
    assert(row_of(kind, chunk, w, sep) == cell0 + row_of(kind, chunk.drop_first(), w, sep));
    let pre = row_prefix(kind).len() as int;
    assert(forall|i: int| 0 <= i < pre ==> line[i] == 32);
    assert(forall|i: int| 0 <= i < cell0.len() ==> line[pre + i] == cell0[i]);
    match kind {
        CellKind::DecAligned => {
            let d = dec_nat(chunk[0] as int);
            lemma_dec_nat_digits(chunk[0] as int);
            let p = if d.len() >= w {
                0int
            } else {
                w - d.len()
            };
            lemma_rep_byte_at(32, w - d.len());
            assert(forall|i: int| 0 <= i < p ==> cell0[i] == 32);
            assert(cell0[p] == d[0]);
            assert(is_digit(d[0]));
            lemma_no_marker_at(line, pre + p);
        },
        CellKind::HexPadded => {
            assert(cell0[0] == 48);
            lemma_no_marker_at(line, pre);
        },
        CellKind::RawDec => {
            let d = dec_nat(chunk[0] as int);
            lemma_dec_nat_digits(chunk[0] as int);
            let p = if d.len() >= 3 {
                0int
            } else {
                3 - d.len()
            };
            lemma_rep_byte_at(32, 3 - d.len());
            assert(forall|i: int| 0 <= i < p ==> cell0[i] == 32);
            assert(cell0[p] == d[0]);
            assert(is_digit(d[0]));
            lemma_no_marker_at(line, pre + p);
        },
        CellKind::RawHex => {
            let h = hex_nat(chunk[0] as int);
            lemma_hex_nat_digits(chunk[0] as int);
            if h.len() >= 4 {
                assert(cell0[0] == h[0]);
                assert(is_hex_byte(h[0]));
            } else {
                lemma_rep_byte_at(48, 4 - h.len());
                assert(cell0[0] == 48);
            }
            lemma_no_marker_at(line, pre);
        },
    }
}

/// No line of a rendered table block reads as a marker line.
proof fn lemma_table_lines_safe(
    kind: CellKind,
    table: Seq<DutyCycle>,
    width: int,
    w: int,
    sep: Seq<u8>,
)
    ensures
        block_lines_safe(table_lines(kind, table, width, w, sep)),
    decreases table.len(),
{
    let tl = table_lines(kind, table, width, w, sep);
    if width <= 0 || table.len() == 0 {
    } else if table.len() <= width {
        lemma_row_line_no_marker(kind, table, w, sep);
        assert(forall|i: int|
            0 <= i < tl.len() ==> #[trigger] tl[i] == row_prefix(kind) + row_of(
                kind,
                table,
                w,
                sep,
            ));
    } else {
        lemma_row_line_no_marker(kind, table.take(width), w, sep);
        lemma_table_lines_safe(kind, table.skip(width), width, w, sep);
        let rest = table_lines(kind, table.skip(width), width, w, sep);
        assert forall|i: int| 0 <= i < tl.len() implies begin_index_of(#[trigger] tl[i]) is None by {
            if i == 0 {
                assert(tl[i] == row_prefix(kind) + row_of(kind, table.take(width), w, sep));
            } else {
                assert(tl[i] == rest[i - 1]);
            }
        }
    }
}

/// Every computed line of a generated C file scans as plain output: none of
/// them can open a user section, whatever the name token or the table hold.
/// So the file the C renderers write always scans back to a registry that
/// answers every preserved index with exactly the text that was written into
/// the marker pair — the line-level round trip applied to this renderer's
/// own blocks.
pub proof fn lemma_c_file_round_trip(
    hexmode: bool,
    name: Seq<u8>,
    freq: Ratio,
    carrier: Ratio,
    top: int,
    table: Seq<DutyCycle>,
    ntable: Option<Seq<DutyCycle>>,
    width: int,
    reg: Registry,
    k: int,
)
    requires
        reg_sorted(reg),
        forall|j: int|
            0 <= j < reg.len() ==> i32::MIN <= (#[trigger] reg[j]).0 <= i32::MAX
                && section_text_safe(reg[j].0, reg[j].1),
        0 <= k,
        reg_lookup(reg, k) is Some,
    ensures
        ({
            let full = c_file_lines(hexmode, name, freq, carrier, top, table, ntable, width, reg);
            &&& scan_lines(Seq::empty(), ScanState::Idle, full).1 is Idle
            &&& reg_lookup(scan_lines(Seq::empty(), ScanState::Idle, full).0, k) == reg_lookup(
                reg,
                k,
            )
        }),
{
    let ty = c_ty_of(top);
    let w = if hexmode {
        hex_w_of(top)
    } else {
        dec_w_of(top)
    };
    let kind = if hexmode {
        CellKind::HexPadded
    } else {
        CellKind::DecAligned
    };
    let tag = name_tag(name, freq);
    let b0 = seq![
        c_define_line(tag, carrier_suffix(), ratio_display(carrier)),
        Seq::<u8>::empty(),
        c_define_line(tag, len_mid(), dec_nat(table.len() as int)),
        Seq::<u8>::empty(),
    ];
    let b1 = seq![c_array_head(ty, tag, false)] + table_lines(
        kind,
        table,
        width,
        w,
        Seq::empty(),
    ) + seq![c_close(), Seq::<u8>::empty(), Seq::<u8>::empty()];
    let b2 = match ntable {
        Some(nt) => seq![c_array_head(ty, tag, true)] + table_lines(
            CellKind::HexPadded,
            nt,
            width,
            w,
            Seq::empty(),
        ) + seq![c_close(), Seq::<u8>::empty(), Seq::<u8>::empty()],
        None => Seq::<Seq<u8>>::empty(),
    };
    let blocks = seq![b0, b1, b2, Seq::<Seq<u8>>::empty()];
    let lead = seq![include_line(), Seq::<u8>::empty(), Seq::<u8>::empty()];
    let trail = seq![Seq::<u8>::empty()];

    assert(include_line()[0] == 35 && !is_ws(35u8));
    lemma_no_marker_at(include_line(), 0);
    lemma_blank_no_marker(Seq::<u8>::empty());
    assert(block_lines_safe(lead));
    assert(block_lines_safe(trail));

    let def1 = c_define_line(tag, carrier_suffix(), ratio_display(carrier));
    let def2 = c_define_line(tag, len_mid(), dec_nat(table.len() as int));
    assert(def1[0] == 35);
    assert(def2[0] == 35);
    lemma_no_marker_at(def1, 0);
    lemma_no_marker_at(def2, 0);
    assert(block_lines_safe(b0));

    let head = c_array_head(ty, tag, false);
    assert(head[0] == 99);
    lemma_no_marker_at(head, 0);
    assert(c_close()[0] == 125);
    lemma_no_marker_at(c_close(), 0);
    lemma_table_lines_safe(kind, table, width, w, Seq::empty());
    let tl = table_lines(kind, table, width, w, Seq::empty());
    assert forall|i: int| 0 <= i < b1.len() implies begin_index_of(#[trigger] b1[i]) is None by {
        if i == 0 {
            assert(b1[i] == head);
        } else if i < 1 + tl.len() {
            assert(b1[i] == tl[i - 1]);
        } else if i == 1 + tl.len() {
            assert(b1[i] == c_close());
        } else {
            assert(b1[i] =~= Seq::<u8>::empty());
            lemma_blank_no_marker(b1[i]);
        }
    }
    assert(block_lines_safe(b1));

    if ntable is Some {
        let nt = ntable.unwrap();
        let head2 = c_array_head(ty, tag, true);
        assert(head2[0] == 99);
        lemma_no_marker_at(head2, 0);
        lemma_table_lines_safe(CellKind::HexPadded, nt, width, w, Seq::empty());
        let tl2 = table_lines(CellKind::HexPadded, nt, width, w, Seq::empty());
        assert forall|i: int| 0 <= i < b2.len() implies begin_index_of(
            #[trigger] b2[i],
        ) is None by {
            if i == 0 {
                assert(b2[i] == head2);
            } else if i < 1 + tl2.len() {
                assert(b2[i] == tl2[i - 1]);
            } else if i == 1 + tl2.len() {
                assert(b2[i] == c_close());
            } else {
                assert(b2[i] =~= Seq::<u8>::empty());
                lemma_blank_no_marker(b2[i]);
            }
        }
    }
    assert(block_lines_safe(b2));
    assert(block_lines_safe(Seq::<Seq<u8>>::empty()));
    assert(forall|j: int| 0 <= j < blocks.len() ==> block_lines_safe(#[trigger] blocks[j]));

    lemma_round_trip(lead, reg, blocks, trail, k);
    assert(c_file_lines(hexmode, name, freq, carrier, top, table, ntable, width, reg) == lead
        + points_lines(reg, blocks, 0) + remains_lines(reg, blocks.len() as int) + trail);
}
/// The same round trip for the Rust renderers: no computed line of a
/// generated Rust file can open a user section.
pub proof fn lemma_rust_file_round_trip(
    hexmode: bool,
    name: Seq<u8>,
    freq: Ratio,
    top: int,
    table: Seq<DutyCycle>,
    ntable: Option<Seq<DutyCycle>>,
    width: int,
    reg: Registry,
    k: int,
)
    requires
        reg_sorted(reg),
        forall|j: int|
            0 <= j < reg.len() ==> i32::MIN <= (#[trigger] reg[j]).0 <= i32::MAX
                && section_text_safe(reg[j].0, reg[j].1),
        0 <= k,
        reg_lookup(reg, k) is Some,
    ensures
        ({
            let full = rust_file_lines(hexmode, name, freq, top, table, ntable, width, reg);
            &&& scan_lines(Seq::empty(), ScanState::Idle, full).1 is Idle
            &&& reg_lookup(scan_lines(Seq::empty(), ScanState::Idle, full).0, k) == reg_lookup(
                reg,
                k,
            )
        }),
{
    let ty = rust_ty_of(top);
    let w = if hexmode {
        hex_w_of(top)
    } else {
        dec_w_of(top)
    };
    let kind = if hexmode {
        CellKind::HexPadded
    } else {
        CellKind::DecAligned
    };
    let tag = name_tag(name, freq);
    let b0 = seq![rust_array_head(ty, tag, table.len() as int, false)] + table_lines(
        kind,
        table,
        width,
        w,
        Seq::empty(),
    ) + seq![rust_close()];
    let b1 = match ntable {
        Some(nt) => seq![rust_array_head(ty, tag, nt.len() as int, true)] + table_lines(
            kind,
            nt,
            width,
            w,
            Seq::empty(),
        ) + seq![rust_close()],
        None => Seq::<Seq<u8>>::empty(),
    };
    let blocks = seq![b0, b1, Seq::<Seq<u8>>::empty()];
    let lead: Seq<Seq<u8>> = Seq::empty();
    let trail: Seq<Seq<u8>> = Seq::empty();

    assert(block_lines_safe(lead));
    assert(block_lines_safe(trail));
    assert(rust_close()[0] == 93);
    lemma_no_marker_at(rust_close(), 0);

    let head = rust_array_head(ty, tag, table.len() as int, false);
    assert(head[0] == 99);
    lemma_no_marker_at(head, 0);
    lemma_table_lines_safe(kind, table, width, w, Seq::empty());
    let tl = table_lines(kind, table, width, w, Seq::empty());
    assert forall|i: int| 0 <= i < b0.len() implies begin_index_of(#[trigger] b0[i]) is None by {
        if i == 0 {
            assert(b0[i] == head);
        } else if i < 1 + tl.len() {
            assert(b0[i] == tl[i - 1]);
        } else {
            assert(b0[i] == rust_close());
        }
    }
    assert(block_lines_safe(b0));

    if ntable is Some {
        let nt = ntable.unwrap();
        let head2 = rust_array_head(ty, tag, nt.len() as int, true);
        assert(head2[0] == 99);
        lemma_no_marker_at(head2, 0);
        lemma_table_lines_safe(kind, nt, width, w, Seq::empty());
        let tl2 = table_lines(kind, nt, width, w, Seq::empty());
        assert forall|i: int| 0 <= i < b1.len() implies begin_index_of(
            #[trigger] b1[i],
        ) is None by {
            if i == 0 {
                assert(b1[i] == head2);
            } else if i < 1 + tl2.len() {
                assert(b1[i] == tl2[i - 1]);
            } else {
                assert(b1[i] == rust_close());
            }
        }
    }
    assert(block_lines_safe(b1));
    assert(block_lines_safe(Seq::<Seq<u8>>::empty()));
    assert(forall|j: int| 0 <= j < blocks.len() ==> block_lines_safe(#[trigger] blocks[j]));

    lemma_round_trip(lead, reg, blocks, trail, k);
    assert(rust_file_lines(hexmode, name, freq, top, table, ntable, width, reg) =~= lead
        + points_lines(reg, blocks, 0) + remains_lines(reg, blocks.len() as int) + trail);
}
/// The same round trip for the raw hexadecimal renderer: a row of
/// hexadecimal cells never opens a user section, whatever the separator is.
pub proof fn lemma_raw_hex_round_trip(
    table: Seq<DutyCycle>,
    width: int,
    sep: Seq<u8>,
    reg: Registry,
    k: int,
)
    requires
        reg_sorted(reg),
        forall|j: int|
            0 <= j < reg.len() ==> i32::MIN <= (#[trigger] reg[j]).0 <= i32::MAX
                && section_text_safe(reg[j].0, reg[j].1),
        0 <= k,
        reg_lookup(reg, k) is Some,
    ensures
        ({
            let full = raw_hex_file_lines(table, width, sep, reg);
            &&& scan_lines(Seq::empty(), ScanState::Idle, full).1 is Idle
            &&& reg_lookup(scan_lines(Seq::empty(), ScanState::Idle, full).0, k) == reg_lookup(
                reg,
                k,
            )
        }),
{
    let b0 = table_lines(CellKind::RawHex, table, width, 0, sep);
    let blocks = seq![b0, Seq::<Seq<u8>>::empty()];
    let lead: Seq<Seq<u8>> = Seq::empty();
    let trail: Seq<Seq<u8>> = Seq::empty();
    lemma_table_lines_safe(CellKind::RawHex, table, width, 0, sep);
    assert(block_lines_safe(lead));
    assert(block_lines_safe(trail));
    assert(block_lines_safe(Seq::<Seq<u8>>::empty()));
    assert(forall|j: int| 0 <= j < blocks.len() ==> block_lines_safe(#[trigger] blocks[j]));
    lemma_round_trip(lead, reg, blocks, trail, k);
    assert(raw_hex_file_lines(table, width, sep, reg) =~= lead + points_lines(reg, blocks, 0)
        + remains_lines(reg, blocks.len() as int) + trail);
}
} // verus!
