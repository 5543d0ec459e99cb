//! The section-preserving merge: scan an existing output file for delimited
//! user sections, keep their text, and emit marker pairs around preserved
//! text when the file is regenerated.
//!
//! The scanner is a two-state machine over the file's lines: outside a
//! section every line is discarded (it is prior computed output); a begin
//! marker opens a section, whose lines are buffered verbatim until the end
//! marker with the same index closes it. A section left open at the end of
//! the input is reported as an error rather than silently dropped.
use vstd::prelude::*;

use crate::errors::SpwmError;
use crate::text::{
    append_bytes, dec_int, i32_to_dec, is_digit, is_ws, join_lines, lemma_lines_of_join,
    lemma_parse_dec_int, lemma_trim_back_prefix, lemma_trim_back_take, lemma_trim_front_skip, trim_back,
    lemma_trimmed_identity, line_wf, lines_of, parse_i32, parse_i32_spec, split_lines, trim,
    trimmed,
};

verus! {

/// The preserved sections: index to text, as a sequence of lines.
pub type Registry = Seq<(int, Seq<Seq<u8>>)>;

/// The bytes of the begin marker.
pub open spec fn begin_marker() -> Seq<u8> {
    seq![
        47u8,
        47u8,
        32u8,
        85u8,
        83u8,
        69u8,
        82u8,
        32u8,
        83u8,
        69u8,
        67u8,
        84u8,
        73u8,
        79u8,
        78u8,
        32u8,
        66u8,
        69u8,
        71u8,
        73u8,
        78u8,
    ]
}

/// The bytes of the end marker.
pub open spec fn end_marker() -> Seq<u8> {
    seq![
        47u8,
        47u8,
        32u8,
        85u8,
        83u8,
        69u8,
        82u8,
        32u8,
        83u8,
        69u8,
        67u8,
        84u8,
        73u8,
        79u8,
        78u8,
        32u8,
        69u8,
        78u8,
        68u8,
    ]
}

/// The begin marker, as file bytes.
pub fn begin_marker_vec() -> (r: Vec<u8>)
    ensures
        r@ == begin_marker(),
{
    let mut r: Vec<u8> = Vec::new();
    r.push(47);
    r.push(47);
    r.push(32);
    r.push(85);
    r.push(83);
    r.push(69);
    r.push(82);
    r.push(32);
    r.push(83);
    r.push(69);
    r.push(67);
    r.push(84);
    r.push(73);
    r.push(79);
    r.push(78);
    r.push(32);
    r.push(66);
    r.push(69);
    r.push(71);
    r.push(73);
    r.push(78);
    proof {
        assert(r@ =~= begin_marker());
    }
    r
}

/// The end marker, as file bytes.
pub fn end_marker_vec() -> (r: Vec<u8>)
    ensures
        r@ == end_marker(),
{
    let mut r: Vec<u8> = Vec::new();
    r.push(47);
    r.push(47);
    r.push(32);
    r.push(85);
    r.push(83);
    r.push(69);
    r.push(82);
    r.push(32);
    r.push(83);
    r.push(69);
    r.push(67);
    r.push(84);
    r.push(73);
    r.push(79);
    r.push(78);
    r.push(32);
    r.push(69);
    r.push(78);
    r.push(68);
    proof {
        assert(r@ =~= end_marker());
    }
    r
}

/// `l` begins with `p`.
pub open spec fn starts_with(l: Seq<u8>, p: Seq<u8>) -> bool {
    l.len() >= p.len() && l.take(p.len() as int) == p
}

/// Whether `l` begins with `p`, byte for byte.
pub fn has_prefix(l: &Vec<u8>, p: &Vec<u8>) -> (r: bool)
    ensures
        r == starts_with(l@, p@),
{
    if l.len() < p.len() {
        assert(!starts_with(l@, p@));
        return false;
    }
    let mut i: usize = 0;
    while i < p.len()
        invariant
            i <= p@.len() <= l@.len(),
            forall|j: int| 0 <= j < i ==> l@[j] == p@[j],
        decreases p@.len() - i,
    {
        if l[i] != p[i] {
            assert(l@.take(p@.len() as int)[i as int] != p@[i as int]);
            return false;
        }
        i = i + 1;
    }
    proof {
        assert(l@.take(p@.len() as int) =~= p@);
    }
    true
}

/// Copy `l` from position `k` on.
pub fn skip_copy(l: &Vec<u8>, k: usize) -> (r: Vec<u8>)
    requires
        k <= l@.len(),
    ensures
        r@ == l@.skip(k as int),
{
    let mut r: Vec<u8> = Vec::new();
    let mut i: usize = k;
    while i < l.len()
        invariant
            k <= i <= l@.len(),
            r@.len() == i - k,
            forall|j: int| 0 <= j < r@.len() ==> r@[j] == l@[k + j],
        decreases l@.len() - i,
    {
        r.push(l[i]);
        i = i + 1;
    }
    proof {
        assert(r@ =~= l@.skip(k as int));
    }
    r
}

/// Copy a byte line.
pub fn copy_bytes(l: &Vec<u8>) -> (r: Vec<u8>)
    ensures
        r@ == l@,
{
    let mut r: Vec<u8> = Vec::new();
    let mut i: usize = 0;
    while i < l.len()
        invariant
            i <= l@.len(),
            r@ == l@.take(i as int),
        decreases l@.len() - i,
    {
        proof {
            assert(l@.take(i as int).push(l@[i as int]) =~= l@.take(i + 1));
        }
        r.push(l[i]);
        i = i + 1;
    }
    proof {
        assert(l@.take(l@.len() as int) =~= l@);
    }
    r
}

/// The index a line opens a section at: the trimmed line starts with the
/// begin marker and the rest parses as an integer.
pub open spec fn begin_index_of(l: Seq<u8>) -> Option<int> {
    if starts_with(trimmed(l), begin_marker()) {
        parse_i32_spec(trimmed(trimmed(l).skip(begin_marker().len() as int)))
    } else {
        None
    }
}

/// The index a line closes a section at: the trimmed line starts with the
/// end marker, is longer than it, and the rest parses as an integer.
pub open spec fn end_index_of(l: Seq<u8>) -> Option<int> {
    if starts_with(trimmed(l), end_marker()) && trimmed(l).len() > end_marker().len() {
        parse_i32_spec(trimmed(trimmed(l).skip(end_marker().len() as int)))
    } else {
        None
    }
}

/// Classify a line as a begin marker.
fn begin_index(l: &Vec<u8>) -> (r: Option<i32>)
    ensures
        r matches Some(v) ==> begin_index_of(l@) == Some(v as int),
        r is None ==> begin_index_of(l@) is None,
{
    let t = trim(l);
    let m = begin_marker_vec();
    if has_prefix(&t, &m) {
        let rest = skip_copy(&t, m.len());
        let rest_t = trim(&rest);
        parse_i32(&rest_t)
    } else {
        None
    }
}

/// Classify a line as an end marker.
fn end_index(l: &Vec<u8>) -> (r: Option<i32>)
    ensures
        r matches Some(v) ==> end_index_of(l@) == Some(v as int),
        r is None ==> end_index_of(l@) is None,
{
    let t = trim(l);
    let m = end_marker_vec();
    if has_prefix(&t, &m) && t.len() > m.len() {
        let rest = skip_copy(&t, m.len());
        let rest_t = trim(&rest);
        parse_i32(&rest_t)
    } else {
        None
    }
}

/// The scanner's state: between sections, or inside the section opened at
/// this index, with the lines buffered so far.
pub enum ScanState {
    Idle,
    InSection(int, Seq<Seq<u8>>),
}

/// First entry with this index, if any.
pub open spec fn reg_lookup(reg: Registry, idx: int) -> Option<Seq<Seq<u8>>>
    decreases reg.len(),
{
    if reg.len() == 0 {
        None
    } else if reg[0].0 == idx {
        Some(reg[0].1)
    } else {
        reg_lookup(reg.drop_first(), idx)
    }
}

/// Insert or replace the entry at this index, keeping ascending order.
pub open spec fn reg_upsert(reg: Registry, idx: int, txt: Seq<Seq<u8>>) -> Registry
    decreases reg.len(),
{
    if reg.len() == 0 {
        seq![(idx, txt)]
    } else if idx < reg[0].0 {
        seq![(idx, txt)] + reg
    } else if idx == reg[0].0 {
        seq![(idx, txt)] + reg.drop_first()
    } else {
        seq![reg[0]] + reg_upsert(reg.drop_first(), idx, txt)
    }
}

/// Indices strictly ascending: each stored at most once, walked in order.
pub open spec fn reg_sorted(reg: Registry) -> bool {
    forall|i: int, j: int| 0 <= i < j < reg.len() ==> reg[i].0 < reg[j].0
}

/// One scanner transition on one line.
pub open spec fn scan_step(reg: Registry, st: ScanState, line: Seq<u8>) -> (Registry, ScanState) {
    match st {
        ScanState::Idle => match begin_index_of(line) {
            Some(i) => (reg, ScanState::InSection(i, Seq::empty())),
            None => (reg, ScanState::Idle),
        },
        ScanState::InSection(idx, buf) => {
            if end_index_of(line) == Some(idx) {
                (reg_upsert(reg, idx, buf), ScanState::Idle)
            } else {
                (reg, ScanState::InSection(idx, buf.push(line)))
            }
        },
    }
}

/// The scanner run over a sequence of lines.
pub open spec fn scan_lines(reg: Registry, st: ScanState, lines: Seq<Seq<u8>>) -> (
    Registry,
    ScanState,
)
    decreases lines.len(),
{
    if lines.len() == 0 {
        (reg, st)
    } else {
        let (reg2, st2) = scan_step(reg, st, lines[0]);
        scan_lines(reg2, st2, lines.drop_first())
    }
}

/// The registry and final state of scanning a whole file.
pub open spec fn spec_scan(content: Seq<u8>) -> (Registry, ScanState) {
    scan_lines(Seq::empty(), ScanState::Idle, lines_of(content))
}

proof fn lemma_reg_upsert_split(reg: Registry, idx: int, txt: Seq<Seq<u8>>, k: int)
    requires
        0 <= k <= reg.len(),
        forall|i: int| 0 <= i < k ==> reg[i].0 < idx,
        k == reg.len() || reg[k].0 >= idx,
    ensures
        reg_upsert(reg, idx, txt) == if k < reg.len() && reg[k].0 == idx {
            reg.take(k) + seq![(idx, txt)] + reg.skip(k + 1)
        } else {
            reg.take(k) + seq![(idx, txt)] + reg.skip(k)
        },
    decreases k,
{
    if k == 0 {
        if reg.len() == 0 {
            assert(reg_upsert(reg, idx, txt) =~= reg.take(0) + seq![(idx, txt)] + reg.skip(0));
        } else if reg[0].0 == idx {
            assert(seq![(idx, txt)] + reg.drop_first() =~= reg.take(0) + seq![(idx, txt)]
                + reg.skip(1));
        } else {
            assert(seq![(idx, txt)] + reg =~= reg.take(0) + seq![(idx, txt)] + reg.skip(0));
        }
    } else {
        assert(reg[0].0 < idx);
        let tail = reg.drop_first();
        lemma_reg_upsert_split(tail, idx, txt, k - 1);
        if k < reg.len() && reg[k].0 == idx {
            assert(tail[k - 1].0 == idx);
            assert(seq![reg[0]] + (tail.take(k - 1) + seq![(idx, txt)] + tail.skip(k)) =~= reg.take(
                k,
            ) + seq![(idx, txt)] + reg.skip(k + 1));
        } else {
            assert(seq![reg[0]] + (tail.take(k - 1) + seq![(idx, txt)] + tail.skip(k - 1))
                =~= reg.take(k) + seq![(idx, txt)] + reg.skip(k));
        }
    }
}

/// The line opening the section at this index.
pub open spec fn begin_line(idx: int) -> Seq<u8> {
    begin_marker() + seq![32u8] + dec_int(idx)
}

/// The line closing the section at this index.
pub open spec fn end_line(idx: int) -> Seq<u8> {
    end_marker() + seq![32u8] + dec_int(idx)
}

/// The lines a section is written as: begin marker, preserved text, end
/// marker, and a blank separator line.
pub open spec fn pair_lines_entry(idx: int, txt: Seq<Seq<u8>>) -> Seq<Seq<u8>> {
    seq![begin_line(idx)] + txt + seq![end_line(idx), Seq::<u8>::empty()]
}

/// The lines written for this index out of a registry: its preserved text if
/// any, else an empty pair.
pub open spec fn pair_lines(reg: Registry, idx: int) -> Seq<Seq<u8>> {
    pair_lines_entry(
        idx,
        match reg_lookup(reg, idx) {
            Some(t) => t,
            None => Seq::empty(),
        },
    )
}

/// The lines written for every entry with index at least `off`, in the
/// registry's ascending order.
pub open spec fn remains_lines(reg: Registry, off: int) -> Seq<Seq<u8>>
    decreases reg.len(),
{
    if reg.len() == 0 {
        Seq::empty()
    } else {
        (if reg[0].0 >= off {
            pair_lines_entry(reg[0].0, reg[0].1)
        } else {
            Seq::empty()
        }) + remains_lines(reg.drop_first(), off)
    }
}

proof fn lemma_reg_lookup_at(reg: Registry, idx: int, k: int)
    requires
        0 <= k <= reg.len(),
        forall|i: int| 0 <= i < k ==> reg[i].0 != idx,
        k == reg.len() || reg[k].0 == idx,
    ensures
        reg_lookup(reg, idx) == if k < reg.len() {
            Some(reg[k].1)
        } else {
            None::<Seq<Seq<u8>>>
        },
    decreases k,
{
    if k == 0 {
    } else {
        lemma_reg_lookup_at(reg.drop_first(), idx, k - 1);
    }
}

/// A marker followed by a space and the decimal index.
fn build_marker_line(m: Vec<u8>, idx: i32) -> (r: Vec<u8>)
    ensures
        r@ == m@ + seq![32u8] + dec_int(idx as int),
{
    let ghost m0 = m@;
    let mut line = m;
    line.push(32);
    let ds = i32_to_dec(idx);
    append_bytes(&mut line, &ds);
    proof {
        assert(line@ =~= m0 + seq![32u8] + dec_int(idx as int));
    }
    line
}

/// Append a whole marker pair to the line buffer.
fn emit_pair(idx: i32, text: &Vec<Vec<u8>>, out: &mut Vec<Vec<u8>>)
    ensures
        final(out).deep_view() == old(out).deep_view() + pair_lines_entry(idx as int, text.deep_view()),
{
    let ghost base = old(out).deep_view();
    let bl = build_marker_line(begin_marker_vec(), idx);
    let ghost blv = bl@;
    out.push(bl);
    proof {
        assert(out.deep_view() =~~= base.push(begin_line(idx as int)));
    }
    let ghost mid = out.deep_view();
    let mut t: usize = 0;
    proof {
        assert(mid + text.deep_view().take(0) =~= mid);
    }
    while t < text.len()
        invariant
            t <= text@.len(),
            out.deep_view() == mid + text.deep_view().take(t as int),
            mid == base.push(begin_line(idx as int)),
        decreases text@.len() - t,
    {
        let ghost pre = out.deep_view();
        let copied = copy_bytes(&text[t]);
        proof {
            assert(text@[t as int].deep_view() =~= text@[t as int]@);
        }
        out.push(copied);
        proof {
            assert(out.deep_view() =~~= pre.push(text.deep_view()[t as int]));
            assert(pre.push(text.deep_view()[t as int]) =~= mid + text.deep_view().take(t + 1));
        }
        t = t + 1;
    }
    proof {
        assert(text.deep_view().take(text@.len() as int) =~= text.deep_view());
    }
    let el = build_marker_line(end_marker_vec(), idx);
    let ghost pre1 = out.deep_view();
    out.push(el);
    proof {
        assert(out.deep_view() =~~= pre1.push(end_line(idx as int)));
    }
    let empty_line: Vec<u8> = Vec::new();
    let ghost pre2 = out.deep_view();
    out.push(empty_line);
    proof {
        assert(out.deep_view() =~~= pre2.push(Seq::<u8>::empty()));
        assert(out.deep_view() =~~= base + pair_lines_entry(idx as int, text.deep_view()));
    }
}

/// Registry of preserved user sections, kept in ascending index order.
#[derive(Debug, Clone, Default)]
pub struct UserSection {
    pub sections: Vec<(i32, Vec<Vec<u8>>)>,
}

impl UserSection {
    /// The registry this value holds.
    pub open spec fn reg(self) -> Registry {
        Seq::new(
            self.sections@.len(),
            |i: int| (self.sections@[i].0 as int, self.sections@[i].1.deep_view()),
        )
    }

    pub open spec fn wf(self) -> bool {
        reg_sorted(self.reg())
    }

    /// An empty registry.
    pub fn new() -> (r: UserSection)
        ensures
            r.reg() == Seq::<(int, Seq<Seq<u8>>)>::empty(),
            r.wf(),
    {
        let r = UserSection { sections: Vec::new() };
        proof {
            assert(r.reg() =~= Seq::<(int, Seq<Seq<u8>>)>::empty());
        }
        r
    }

    /// Store text under an index, replacing what was there.
    pub fn upsert(&mut self, index: i32, text: Vec<Vec<u8>>)
        requires
            old(self).wf(),
        ensures
            final(self).reg() == reg_upsert(old(self).reg(), index as int, text.deep_view()),
            final(self).wf(),
    {
        let ghost reg0 = self.reg();
        let mut k: usize = 0;
        while k < self.sections.len() && self.sections[k].0 < index
            invariant
                k <= self.sections@.len(),
                forall|i: int| 0 <= i < k ==> self.reg()[i].0 < index,
                self == old(self),
            decreases self.sections@.len() - k,
        {
            k = k + 1;
        }
        proof {
            lemma_reg_upsert_split(reg0, index as int, text.deep_view(), k as int);
        }
        if k < self.sections.len() && self.sections[k].0 == index {
            self.sections.remove(k);
            self.sections.insert(k, (index, text));
            proof {
                assert(self.reg() =~~= reg0.take(k as int) + seq![
                    (index as int, text.deep_view()),
                ] + reg0.skip(k as int + 1));
            }
        } else {
            self.sections.insert(k, (index, text));
            proof {
                assert(self.reg() =~~= reg0.take(k as int) + seq![
                    (index as int, text.deep_view()),
                ] + reg0.skip(k as int));
            }
        }
        proof {
            assert(reg_sorted(self.reg()));
        }
    }

    /// Write one marker pair at this index into the line buffer: begin
    /// marker, the preserved text if the registry holds any, end marker, and
    /// a blank line.
    pub fn write(&self, index: i32, out: &mut Vec<Vec<u8>>)
        ensures
            final(out).deep_view() == old(out).deep_view() + pair_lines(self.reg(), index as int),
    {
        let mut k: usize = 0;
        while k < self.sections.len() && self.sections[k].0 != index
            invariant
                k <= self.sections@.len(),
                forall|i: int| 0 <= i < k ==> self.reg()[i].0 != index as int,
            decreases self.sections@.len() - k,
        {
            k = k + 1;
        }
        proof {
            lemma_reg_lookup_at(self.reg(), index as int, k as int);
        }
        if k < self.sections.len() {
            let text = &self.sections[k].1;
            assert(reg_lookup(self.reg(), index as int) == Some(text.deep_view()));
            emit_pair(index, text, out);
        } else {
            let empty_text: Vec<Vec<u8>> = Vec::new();
            proof {
                assert(empty_text.deep_view() =~~= Seq::<Seq<u8>>::empty());
            }
            emit_pair(index, &empty_text, out);
        }
    }

    /// Write every preserved section whose index is at least `offset`, in
    /// ascending index order: sections orphaned when the renderer has fewer
    /// insertion points than the file once had.
    pub fn write_remains(&self, offset: i32, out: &mut Vec<Vec<u8>>)
        ensures
            final(out).deep_view() == old(out).deep_view() + remains_lines(self.reg(), offset as int),
    {
        let ghost base = old(out).deep_view();
        let ghost reg = self.reg();
        let mut k: usize = 0;
        proof {
            assert(reg.skip(0) =~= reg);
            assert(base + remains_lines(reg, offset as int) =~= out.deep_view() + remains_lines(
                reg.skip(0),
                offset as int,
            ));
        }
        while k < self.sections.len()
            invariant
                k <= self.sections@.len(),
                reg == self.reg(),
                reg.len() == self.sections@.len(),
                base + remains_lines(reg, offset as int) == out.deep_view() + remains_lines(
                    reg.skip(k as int),
                    offset as int,
                ),
            decreases self.sections@.len() - k,
        {
            let ghost rem = reg.skip(k as int);
            proof {
                assert(rem[0] == reg[k as int]);
                assert(rem.drop_first() =~= reg.skip(k as int + 1));
            }
            let idx = self.sections[k].0;
            if idx >= offset {
                let text = &self.sections[k].1;
                assert(rem[0] == (idx as int, text.deep_view()));
                emit_pair(idx, text, out);
            } else {
                proof {
                    assert(Seq::<Seq<u8>>::empty() + remains_lines(rem.drop_first(), offset as int)
                        =~= remains_lines(rem.drop_first(), offset as int));
                }
            }
            proof {
                assert(out.deep_view() + remains_lines(reg.skip(k as int + 1), offset as int)
                    =~= base + remains_lines(reg, offset as int));
            }
            k = k + 1;
        }
        proof {
            assert(remains_lines(reg.skip(reg.len() as int), offset as int) =~= Seq::<
                Seq<u8>,
            >::empty());
            assert(out.deep_view() + remains_lines(reg.skip(reg.len() as int), offset as int)
                =~= out.deep_view());
        }
    }

    /// Scan the previous contents of an output file for user sections.
    ///
    /// Every line outside a section is prior computed output and is
    /// discarded; a section's lines are preserved under its index. A marker
    /// line whose index does not parse as an integer is ordinary text. A
    /// section still open at the end of the input is an error: rewriting the
    /// file would lose its text.
    pub fn read_user_reign(content: &Vec<u8>) -> (r: Result<UserSection, SpwmError>)
        ensures
            r matches Ok(u) ==> u.wf() && u.reg() == spec_scan(content@).0 && spec_scan(
                content@,
            ).1 is Idle,
            r matches Err(e) ==> (spec_scan(content@).1 matches ScanState::InSection(idx, _)
                && e == (SpwmError::UnterminatedSection { index: idx as i32 }) && idx as i32
                as int == idx),
    {
        let lines = split_lines(content);
        let mut user = UserSection::new();
        let mut in_sec = false;
        let mut cur: i32 = 0;
        let mut buf: Vec<Vec<u8>> = Vec::new();
        let ghost all = lines.deep_view();
        let mut k: usize = 0;
        proof {
            assert(all.skip(0) =~= all);
        }
        while k < lines.len()
            invariant
                k <= lines@.len(),
                all == lines.deep_view(),
                all.len() == lines@.len(),
                user.wf(),
                forall|i: int| 0 <= i < lines@.len() ==> all[i] == lines@[i].deep_view(),
                scan_lines(Seq::empty(), ScanState::Idle, all) == scan_lines(
                    user.reg(),
                    if in_sec {
                        ScanState::InSection(cur as int, buf.deep_view())
                    } else {
                        ScanState::Idle
                    },
                    all.skip(k as int),
                ),
            decreases lines@.len() - k,
        {
            let ghost st = if in_sec {
                ScanState::InSection(cur as int, buf.deep_view())
            } else {
                ScanState::Idle
            };
            let ghost rem = all.skip(k as int);
            let ghost reg0 = user.reg();
            let line = &lines[k];
            proof {
                assert(rem[0] == all[k as int]);
                assert(rem.drop_first() =~= all.skip(k as int + 1));
                assert(lines@[k as int].deep_view() =~= lines@[k as int]@);
                assert(rem[0] == line@);
            }
            if !in_sec {
                match begin_index(line) {
                    Some(i) => {
                        in_sec = true;
                        cur = i;
                        buf = Vec::new();
                        proof {
                            assert(buf.deep_view() =~~= Seq::<Seq<u8>>::empty());
                            assert(scan_step(reg0, st, rem[0]) == (
                                reg0,
                                ScanState::InSection(i as int, Seq::<Seq<u8>>::empty()),
                            ));
                        }
                    },
                    None => {
                        proof {
                            assert(scan_step(reg0, st, rem[0]) == (reg0, ScanState::Idle));
                        }
                    },
                }
            } else {
                let e = end_index(line);
                let mut done = false;
                match e {
                    Some(i) => {
                        if i == cur {
                            done = true;
                        }
                    },
                    None => {
                    },
                }
                if done {
                    proof {
                        assert(end_index_of(line@) == Some(cur as int));
                        assert(scan_step(reg0, st, rem[0]) == (
                            reg_upsert(reg0, cur as int, buf.deep_view()),
                            ScanState::Idle,
                        ));
                    }
                    let b = buf;
                    user.upsert(cur, b);
                    buf = Vec::new();
                    in_sec = false;
                } else {
                    let ghost buf0 = buf.deep_view();
                    proof {
                        assert(end_index_of(line@) != Some(cur as int));
                        assert(scan_step(reg0, st, rem[0]) == (
                            reg0,
                            ScanState::InSection(cur as int, buf0.push(rem[0])),
                        ));
                    }
                    let copied = copy_bytes(line);
                    buf.push(copied);
                    proof {
                        assert(buf.deep_view() =~~= buf0.push(line@));
                    }
                }
            }
            k = k + 1;
        }
        proof {
            assert(all.skip(all.len() as int) =~= Seq::<Seq<u8>>::empty());
        }
        if in_sec {
            Err(SpwmError::UnterminatedSection { index: cur })
        } else {
            Ok(user)
        }
    }
}

/// Text that can sit inside the section at `idx` without closing it: no line
/// of it reads as the end marker of this very index.
pub open spec fn section_text_safe(idx: int, txt: Seq<Seq<u8>>) -> bool {
    forall|i: int| 0 <= i < txt.len() ==> end_index_of(#[trigger] txt[i]) != Some(idx)
}

/// Computed lines the scanner passes over without opening a section.
pub open spec fn block_lines_safe(lines: Seq<Seq<u8>>) -> bool {
    forall|i: int| 0 <= i < lines.len() ==> begin_index_of(#[trigger] lines[i]) is None
}

/// Scanning a concatenation is scanning the parts in turn.
pub proof fn lemma_scan_append(reg: Registry, st: ScanState, a: Seq<Seq<u8>>, b: Seq<Seq<u8>>)
    ensures
        scan_lines(reg, st, a + b) == scan_lines(
            scan_lines(reg, st, a).0,
            scan_lines(reg, st, a).1,
            b,
        ),
    decreases a.len(),
{
    if a.len() == 0 {
        assert(a + b =~= b);
    } else {
        let (r2, s2) = scan_step(reg, st, a[0]);
        assert((a + b)[0] == a[0]);
        assert((a + b).drop_first() =~= a.drop_first() + b);
        lemma_scan_append(r2, s2, a.drop_first(), b);
    }
}

/// Safe lines leave an idle scanner untouched.
pub proof fn lemma_scan_idle_safe(reg: Registry, lines: Seq<Seq<u8>>)
    requires
        block_lines_safe(lines),
    ensures
        scan_lines(reg, ScanState::Idle, lines) == (reg, ScanState::Idle),
    decreases lines.len(),
{
    if lines.len() > 0 {
        assert(begin_index_of(lines[0]) is None);
        assert(block_lines_safe(lines.drop_first())) by {
            assert(forall|i: int|
                0 <= i < lines.drop_first().len() ==> #[trigger] lines.drop_first()[i] == lines[i
                    + 1]);
        }
        lemma_scan_idle_safe(reg, lines.drop_first());
    }
}

/// A generated begin line opens exactly its own index.
pub proof fn lemma_begin_line_classify(idx: int)
    requires
        i32::MIN <= idx <= i32::MAX,
    ensures
        begin_index_of(begin_line(idx)) == Some(idx),
{
    let l = begin_line(idx);
    let d = dec_int(idx);
    lemma_parse_dec_int(idx);
    assert(l[0] == 47);
    assert(l.last() == d.last());
    assert(!is_ws(l[0]));
    assert(!is_ws(l.last()));
    lemma_trimmed_identity(l);
    assert(l.take(begin_marker().len() as int) =~= begin_marker());
    assert(starts_with(l, begin_marker()));
    let t = l.skip(begin_marker().len() as int);
    assert(t =~= seq![32u8] + d);
    assert(is_ws(t[0]));
    assert(!is_ws(t[1]));
    lemma_trim_front_skip(t, 1);
    assert(t.skip(1) =~= d);
    lemma_trim_back_take(d, d.len() as int);
    assert(d.take(d.len() as int) =~= d);
    assert(trimmed(t) == d);
}

/// A generated end line closes exactly its own index.
pub proof fn lemma_end_line_classify(idx: int)
    requires
        i32::MIN <= idx <= i32::MAX,
    ensures
        end_index_of(end_line(idx)) == Some(idx),
{
    let l = end_line(idx);
    let d = dec_int(idx);
    lemma_parse_dec_int(idx);
    assert(l[0] == 47);
    assert(l.last() == d.last());
    assert(!is_ws(l[0]));
    assert(!is_ws(l.last()));
    lemma_trimmed_identity(l);
    assert(l.take(end_marker().len() as int) =~= end_marker());
    assert(starts_with(l, end_marker()));
    assert(l.len() > end_marker().len());
    let t = l.skip(end_marker().len() as int);
    assert(t =~= seq![32u8] + d);
    assert(is_ws(t[0]));
    assert(!is_ws(t[1]));
    lemma_trim_front_skip(t, 1);
    assert(t.skip(1) =~= d);
    lemma_trim_back_take(d, d.len() as int);
    assert(d.take(d.len() as int) =~= d);
    assert(trimmed(t) == d);
}

/// Safe text lines are buffered unchanged.
proof fn lemma_scan_buffer(reg: Registry, idx: int, buf: Seq<Seq<u8>>, txt: Seq<Seq<u8>>)
    requires
        section_text_safe(idx, txt),
    ensures
        scan_lines(reg, ScanState::InSection(idx, buf), txt) == (
            reg,
            ScanState::InSection(idx, buf + txt),
        ),
    decreases txt.len(),
{
    if txt.len() == 0 {
        assert(buf + txt =~= buf);
    } else {
        assert(end_index_of(txt[0]) != Some(idx));
        assert(section_text_safe(idx, txt.drop_first())) by {
            assert(forall|i: int|
                0 <= i < txt.drop_first().len() ==> #[trigger] txt.drop_first()[i] == txt[i + 1]);
        }
        lemma_scan_buffer(reg, idx, buf.push(txt[0]), txt.drop_first());
        assert(buf.push(txt[0]) + txt.drop_first() =~= buf + txt);
    }
}

/// Scanning one emitted marker pair stores exactly its text.
pub proof fn lemma_scan_pair(reg: Registry, idx: int, txt: Seq<Seq<u8>>)
    requires
        i32::MIN <= idx <= i32::MAX,
        section_text_safe(idx, txt),
    ensures
        scan_lines(reg, ScanState::Idle, pair_lines_entry(idx, txt)) == (
            reg_upsert(reg, idx, txt),
            ScanState::Idle,
        ),
{
    let pl = pair_lines_entry(idx, txt);
    lemma_begin_line_classify(idx);
    lemma_end_line_classify(idx);
    let st_in = ScanState::InSection(idx, Seq::<Seq<u8>>::empty());
    let tailseq = seq![end_line(idx), Seq::<u8>::empty()];
    let rest = pl.drop_first();
    assert(pl[0] == begin_line(idx));
    assert(scan_step(reg, ScanState::Idle, pl[0]) == (reg, st_in));
    assert(scan_lines(reg, ScanState::Idle, pl) == scan_lines(reg, st_in, rest));
    assert(rest =~= txt + tailseq);
    lemma_scan_append(reg, st_in, txt, tailseq);
    lemma_scan_buffer(reg, idx, Seq::<Seq<u8>>::empty(), txt);
    assert(Seq::<Seq<u8>>::empty() + txt =~= txt);
    assert(scan_lines(reg, st_in, txt) == (reg, ScanState::InSection(idx, txt)));
    assert(scan_lines(reg, st_in, rest) == scan_lines(reg, ScanState::InSection(idx, txt), tailseq));
    let up = reg_upsert(reg, idx, txt);
    assert(tailseq[0] == end_line(idx));
    assert(scan_step(reg, ScanState::InSection(idx, txt), tailseq[0]) == (up, ScanState::Idle));
    let blank = tailseq.drop_first();
    assert(scan_lines(reg, ScanState::InSection(idx, txt), tailseq) == scan_lines(
        up,
        ScanState::Idle,
        blank,
    ));
    assert(blank =~= seq![Seq::<u8>::empty()]);
    assert(begin_index_of(blank[0]) is None);
    assert(scan_step(up, ScanState::Idle, blank[0]) == (up, ScanState::Idle));
    assert(blank.drop_first() =~= Seq::<Seq<u8>>::empty());
    assert(scan_lines(up, ScanState::Idle, blank) == scan_lines(
        up,
        ScanState::Idle,
        blank.drop_first(),
    ));
    assert(scan_lines(up, ScanState::Idle, blank.drop_first()) == (up, ScanState::Idle));
}

/// The text written for an index: the registry entry, or nothing.
pub open spec fn pair_text(reg: Registry, idx: int) -> Seq<Seq<u8>> {
    match reg_lookup(reg, idx) {
        Some(t) => t,
        None => Seq::empty(),
    }
}

/// The lines of insertion points `i..blocks.len()`: each point's marker pair
/// followed by its computed block.
pub open spec fn points_lines(reg: Registry, blocks: Seq<Seq<Seq<u8>>>, i: int) -> Seq<Seq<u8>>
    decreases blocks.len() - i,
{
    if i < 0 || i >= blocks.len() {
        Seq::empty()
    } else {
        pair_lines(reg, i) + blocks[i] + points_lines(reg, blocks, i + 1)
    }
}

/// The registry after the pairs of points `i..n` were scanned back in.
pub open spec fn upsert_points(acc: Registry, reg: Registry, i: int, n: int) -> Registry
    decreases n - i,
{
    if i < 0 || i >= n {
        acc
    } else {
        upsert_points(reg_upsert(acc, i, pair_text(reg, i)), reg, i + 1, n)
    }
}

/// The registry after the remaining entries (index at least `off`) were
/// scanned back in.
pub open spec fn upsert_all(acc: Registry, reg: Registry, off: int) -> Registry
    decreases reg.len(),
{
    if reg.len() == 0 {
        acc
    } else {
        upsert_all(
            if reg[0].0 >= off {
                reg_upsert(acc, reg[0].0, reg[0].1)
            } else {
                acc
            },
            reg.drop_first(),
            off,
        )
    }
}

/// Looking up after an upsert: the upserted index answers with the new text,
/// every other index as before.
pub proof fn lemma_lookup_upsert(acc: Registry, idx: int, txt: Seq<Seq<u8>>, k: int)
    ensures
        reg_lookup(reg_upsert(acc, idx, txt), k) == if k == idx {
            Some(txt)
        } else {
            reg_lookup(acc, k)
        },
    decreases acc.len(),
{
    let u = reg_upsert(acc, idx, txt);
    if acc.len() == 0 {
        assert(u == seq![(idx, txt)]);
        assert(u.drop_first() =~= Seq::<(int, Seq<Seq<u8>>)>::empty());
    } else if idx < acc[0].0 {
        assert(u == seq![(idx, txt)] + acc);
        assert(u[0] == (idx, txt));
        assert(u.drop_first() =~= acc);
    } else if idx == acc[0].0 {
        assert(u == seq![(idx, txt)] + acc.drop_first());
        assert(u[0] == (idx, txt));
        assert(u.drop_first() =~= acc.drop_first());
    } else {
        assert(u == seq![acc[0]] + reg_upsert(acc.drop_first(), idx, txt));
        assert(u[0] == acc[0]);
        assert(u.drop_first() =~= reg_upsert(acc.drop_first(), idx, txt));
        lemma_lookup_upsert(acc.drop_first(), idx, txt, k);
    }
}

proof fn lemma_lookup_upsert_points(acc: Registry, reg: Registry, i: int, n: int, k: int)
    requires
        0 <= i <= n,
    ensures
        reg_lookup(upsert_points(acc, reg, i, n), k) == if i <= k < n {
            Some(pair_text(reg, k))
        } else {
            reg_lookup(acc, k)
        },
    decreases n - i,
{
    if i < n {
        lemma_lookup_upsert_points(reg_upsert(acc, i, pair_text(reg, i)), reg, i + 1, n, k);
        lemma_lookup_upsert(acc, i, pair_text(reg, i), k);
    }
}

proof fn lemma_upsert_all_absent(acc: Registry, reg: Registry, off: int, k: int)
    requires
        forall|j: int| 0 <= j < reg.len() ==> (#[trigger] reg[j]).0 != k,
    ensures
        reg_lookup(upsert_all(acc, reg, off), k) == reg_lookup(acc, k),
    decreases reg.len(),
{
    if reg.len() > 0 {
        assert(reg[0].0 != k);
        let acc2 = if reg[0].0 >= off {
            reg_upsert(acc, reg[0].0, reg[0].1)
        } else {
            acc
        };
        assert(forall|j: int|
            0 <= j < reg.drop_first().len() ==> (#[trigger] reg.drop_first()[j]) == reg[j + 1]);
        lemma_upsert_all_absent(acc2, reg.drop_first(), off, k);
        if reg[0].0 >= off {
            lemma_lookup_upsert(acc, reg[0].0, reg[0].1, k);
        }
    }
}

proof fn lemma_lookup_entry(reg: Registry, idx: int)
    requires
        reg_lookup(reg, idx) is Some,
    ensures
        exists|j: int|
            0 <= j < reg.len() && #[trigger] reg[j] == (idx, reg_lookup(reg, idx).unwrap()),
    decreases reg.len(),
{
    if reg[0].0 == idx {
        assert(reg[0] == (idx, reg_lookup(reg, idx).unwrap()));
    } else {
        lemma_lookup_entry(reg.drop_first(), idx);
        let j = choose|j: int|
            0 <= j < reg.drop_first().len() && #[trigger] reg.drop_first()[j] == (
                idx,
                reg_lookup(reg.drop_first(), idx).unwrap(),
            );
        assert(reg[j + 1] == (idx, reg_lookup(reg, idx).unwrap()));
    }
}

proof fn lemma_lookup_upsert_all(acc: Registry, reg: Registry, off: int, k: int)
    requires
        reg_sorted(reg),
    ensures
        reg_lookup(upsert_all(acc, reg, off), k) == if reg_lookup(reg, k) is Some && k >= off {
            reg_lookup(reg, k)
        } else {
            reg_lookup(acc, k)
        },
    decreases reg.len(),
{
    if reg.len() > 0 {
        let tail = reg.drop_first();
        assert(forall|j: int| 0 <= j < tail.len() ==> (#[trigger] tail[j]) == reg[j + 1]);
        assert(reg_sorted(tail)) by {
            assert(forall|i: int, j: int|
                0 <= i < j < tail.len() ==> (#[trigger] tail[i]).0 < (#[trigger] tail[j]).0);
        }
        let acc2 = if reg[0].0 >= off {
            reg_upsert(acc, reg[0].0, reg[0].1)
        } else {
            acc
        };
        if reg[0].0 == k {
            assert(forall|j: int| 0 <= j < tail.len() ==> (#[trigger] tail[j]).0 != k);
            lemma_upsert_all_absent(acc2, tail, off, k);
            if reg[0].0 >= off {
                lemma_lookup_upsert(acc, k, reg[0].1, k);
            }
        } else {
            lemma_lookup_upsert_all(acc2, tail, off, k);
            if reg[0].0 >= off {
                lemma_lookup_upsert(acc, reg[0].0, reg[0].1, k);
            }
        }
    }
}

proof fn lemma_scan_points(acc: Registry, reg: Registry, blocks: Seq<Seq<Seq<u8>>>, i: int)
    requires
        0 <= i,
        blocks.len() <= i32::MAX,
        forall|j: int| 0 <= j < blocks.len() ==> block_lines_safe(#[trigger] blocks[j]),
        forall|j: int|
            0 <= j < reg.len() ==> section_text_safe((#[trigger] reg[j]).0, reg[j].1),
    ensures
        scan_lines(acc, ScanState::Idle, points_lines(reg, blocks, i)) == (
            upsert_points(acc, reg, i, blocks.len() as int),
            ScanState::Idle,
        ),
    decreases blocks.len() - i,
{
    if i >= blocks.len() {
    } else {
        let pl = pair_lines(reg, i);
        assert(section_text_safe(i, pair_text(reg, i))) by {
            if reg_lookup(reg, i) is Some {
                lemma_lookup_entry(reg, i);
            }
        }
        lemma_scan_append(
            acc,
            ScanState::Idle,
            pl,
            blocks[i] + points_lines(reg, blocks, i + 1),
        );
        assert(pl + (blocks[i] + points_lines(reg, blocks, i + 1)) =~= points_lines(
            reg,
            blocks,
            i,
        ));
        lemma_scan_pair(acc, i, pair_text(reg, i));
        let acc2 = reg_upsert(acc, i, pair_text(reg, i));
        lemma_scan_append(acc2, ScanState::Idle, blocks[i], points_lines(reg, blocks, i + 1));
        lemma_scan_idle_safe(acc2, blocks[i]);
        lemma_scan_points(acc2, reg, blocks, i + 1);
    }
}

proof fn lemma_scan_remains(acc: Registry, reg: Registry, off: int)
    requires
        forall|j: int|
            0 <= j < reg.len() ==> i32::MIN <= (#[trigger] reg[j]).0 <= i32::MAX
                && section_text_safe(reg[j].0, reg[j].1),
    ensures
        scan_lines(acc, ScanState::Idle, remains_lines(reg, off)) == (
            upsert_all(acc, reg, off),
            ScanState::Idle,
        ),
    decreases reg.len(),
{
    if reg.len() > 0 {
        let tail = reg.drop_first();
        assert(forall|j: int| 0 <= j < tail.len() ==> (#[trigger] tail[j]) == reg[j + 1]);
        let head_lines = if reg[0].0 >= off {
            pair_lines_entry(reg[0].0, reg[0].1)
        } else {
            Seq::<Seq<u8>>::empty()
        };
        assert(remains_lines(reg, off) == head_lines + remains_lines(tail, off));
        lemma_scan_append(acc, ScanState::Idle, head_lines, remains_lines(tail, off));
        let acc2 = if reg[0].0 >= off {
            reg_upsert(acc, reg[0].0, reg[0].1)
        } else {
            acc
        };
        if reg[0].0 >= off {
            lemma_scan_pair(acc, reg[0].0, reg[0].1);
        } else {
            assert(scan_lines(acc, ScanState::Idle, Seq::<Seq<u8>>::empty()) == (
                acc,
                ScanState::Idle,
            ));
        }
        lemma_scan_remains(acc2, tail, off);
    }
}

/// The round trip of the rewrite protocol: a file written as leading
/// computed lines, then for every insertion point a marker pair around the
/// preserved text followed by a computed block, then the orphaned sections,
/// then trailing computed lines, scans back to a registry that answers every
/// preserved index with exactly the text that was written — whatever the
/// computed blocks hold, as long as no computed line reads as a begin marker
/// and no preserved line reads as its own section's end marker.
pub proof fn lemma_round_trip(
    lead: Seq<Seq<u8>>,
    reg: Registry,
    blocks: Seq<Seq<Seq<u8>>>,
    trail: Seq<Seq<u8>>,
    k: int,
)
    requires
        block_lines_safe(lead),
        block_lines_safe(trail),
        forall|j: int| 0 <= j < blocks.len() ==> block_lines_safe(#[trigger] blocks[j]),
        reg_sorted(reg),
        blocks.len() <= i32::MAX,
        forall|j: int|
            0 <= j < reg.len() ==> i32::MIN <= (#[trigger] reg[j]).0 <= i32::MAX
                && section_text_safe(reg[j].0, reg[j].1),
        0 <= k,
        reg_lookup(reg, k) is Some,
    ensures
        ({
            let full = lead + points_lines(reg, blocks, 0) + remains_lines(
                reg,
                blocks.len() as int,
            ) + trail;
            &&& scan_lines(Seq::empty(), ScanState::Idle, full).1 is Idle
            &&& reg_lookup(scan_lines(Seq::empty(), ScanState::Idle, full).0, k) == reg_lookup(
                reg,
                k,
            )
        }),
{
    let n = blocks.len() as int;
    let pts = points_lines(reg, blocks, 0);
    let rem = remains_lines(reg, n);
    let full = lead + pts + rem + trail;
    let e: Registry = Seq::empty();
    lemma_scan_append(e, ScanState::Idle, lead + pts + rem, trail);
    lemma_scan_append(e, ScanState::Idle, lead + pts, rem);
    lemma_scan_append(e, ScanState::Idle, lead, pts);
    lemma_scan_idle_safe(e, lead);
    lemma_scan_points(e, reg, blocks, 0);
    let r1 = upsert_points(e, reg, 0, n);
    lemma_scan_remains(r1, reg, n);
    let r2 = upsert_all(r1, reg, n);
    lemma_scan_idle_safe(r2, trail);
    assert(scan_lines(e, ScanState::Idle, lead) == (e, ScanState::Idle));
    assert(scan_lines(e, ScanState::Idle, pts) == (r1, ScanState::Idle));
    assert(scan_lines(e, ScanState::Idle, lead + pts) == (r1, ScanState::Idle));
    assert(scan_lines(r1, ScanState::Idle, rem) == (r2, ScanState::Idle));
    assert(scan_lines(e, ScanState::Idle, lead + pts + rem) == (r2, ScanState::Idle));
    assert(scan_lines(r2, ScanState::Idle, trail) == (r2, ScanState::Idle));
    assert(scan_lines(e, ScanState::Idle, full) == (r2, ScanState::Idle));
    lemma_lookup_upsert_points(e, reg, 0, n, k);
    lemma_lookup_upsert_all(r1, reg, n, k);
    if k < n {
        assert(reg_lookup(r1, k) == Some(pair_text(reg, k)));
        assert(reg_lookup(reg, k) == Some(pair_text(reg, k)));
        assert(reg_lookup(r2, k) == reg_lookup(r1, k));
    } else {
        assert(reg_lookup(r1, k) == reg_lookup(e, k));
        assert(reg_lookup(e, k) is None);
        assert(reg_lookup(r2, k) == reg_lookup(reg, k));
    }
}

/// Every generated marker line joins and re-splits cleanly: it holds no
/// newline and does not end in a carriage return.
proof fn lemma_marker_lines_wf(idx: int)
    requires
        i32::MIN <= idx <= i32::MAX,
    ensures
        line_wf(begin_line(idx)),
        line_wf(end_line(idx)),
{
    lemma_parse_dec_int(idx);
    let d = dec_int(idx);
    assert(forall|i: int| 0 <= i < d.len() ==> d[i] != 10 && d[i] != 13) by {
        assert(forall|i: int|
            0 <= i < d.len() ==> #[trigger] d[i] == 45 || is_digit(d[i]));
    }
    let bl = begin_line(idx);
    assert(forall|i: int| 0 <= i < bl.len() ==> bl[i] != 10) by {
        assert(forall|i: int|
            0 <= i < bl.len() ==> #[trigger] bl[i] == (if i < begin_marker().len() {
                begin_marker()[i]
            } else if i == begin_marker().len() {
                32u8
            } else {
                d[i - begin_marker().len() - 1]
            }));
    }
    assert(bl.last() == d.last());
    assert(is_digit(d.last()));
    let el = end_line(idx);
    assert(forall|i: int| 0 <= i < el.len() ==> el[i] != 10) by {
        assert(forall|i: int|
            0 <= i < el.len() ==> #[trigger] el[i] == (if i < end_marker().len() {
                end_marker()[i]
            } else if i == end_marker().len() {
                32u8
            } else {
                d[i - end_marker().len() - 1]
            }));
    }
    assert(el.last() == d.last());
}

/// Every line of the registry's text is a well-formed line.
pub open spec fn reg_lines_wf(reg: Registry) -> bool {
    forall|j: int, i: int|
        0 <= j < reg.len() && 0 <= i < (#[trigger] reg[j]).1.len() ==> line_wf(#[trigger] reg[j].1[i])
}

/// Every line of every block is a well-formed line.
pub open spec fn blocks_lines_wf(blocks: Seq<Seq<Seq<u8>>>) -> bool {
    forall|j: int, i: int|
        0 <= j < blocks.len() && 0 <= i < (#[trigger] blocks[j]).len() ==> line_wf(
            #[trigger] blocks[j][i],
        )
}

/// All lines of a sequence are well-formed.
pub open spec fn all_lines_wf(lines: Seq<Seq<u8>>) -> bool {
    forall|i: int| 0 <= i < lines.len() ==> line_wf(#[trigger] lines[i])
}

proof fn lemma_pair_entry_lines_wf(idx: int, txt: Seq<Seq<u8>>)
    requires
        i32::MIN <= idx <= i32::MAX,
        forall|i: int| 0 <= i < txt.len() ==> line_wf(#[trigger] txt[i]),
    ensures
        all_lines_wf(pair_lines_entry(idx, txt)),
{
    lemma_marker_lines_wf(idx);
    let pl = pair_lines_entry(idx, txt);
    assert forall|i: int| 0 <= i < pl.len() implies line_wf(#[trigger] pl[i]) by {
        if i == 0 {
            assert(pl[i] == begin_line(idx));
        } else if i < 1 + txt.len() {
            assert(pl[i] == txt[i - 1]);
        } else if i == 1 + txt.len() {
            assert(pl[i] == end_line(idx));
        } else {
            assert(pl[i] =~= Seq::<u8>::empty());
        }
    }
}

proof fn lemma_points_lines_wf(reg: Registry, blocks: Seq<Seq<Seq<u8>>>, i: int)
    requires
        0 <= i,
        blocks.len() <= i32::MAX,
        blocks_lines_wf(blocks),
        reg_lines_wf(reg),
    ensures
        all_lines_wf(points_lines(reg, blocks, i)),
    decreases blocks.len() - i,
{
    if i < blocks.len() {
        let txt = pair_text(reg, i);
        assert forall|t: int| 0 <= t < txt.len() implies line_wf(#[trigger] txt[t]) by {
            if reg_lookup(reg, i) is Some {
                lemma_lookup_entry(reg, i);
                let j = choose|j: int|
                    0 <= j < reg.len() && #[trigger] reg[j] == (i, reg_lookup(reg, i).unwrap());
                assert(reg[j].1 == txt);
                assert(line_wf(reg[j].1[t]));
            }
        }
        lemma_pair_entry_lines_wf(i, txt);
        lemma_points_lines_wf(reg, blocks, i + 1);
        let whole = points_lines(reg, blocks, i);
        let pl = pair_lines(reg, i);
        assert forall|t: int| 0 <= t < whole.len() implies line_wf(#[trigger] whole[t]) by {
            if t < pl.len() {
                assert(whole[t] == pl[t]);
            } else if t < pl.len() + blocks[i].len() {
                assert(whole[t] == blocks[i][t - pl.len()]);
            } else {
                assert(whole[t] == points_lines(reg, blocks, i + 1)[t - pl.len()
                    - blocks[i].len()]);
            }
        }
    }
}

proof fn lemma_remains_lines_wf(reg: Registry, off: int)
    requires
        forall|j: int| 0 <= j < reg.len() ==> i32::MIN <= (#[trigger] reg[j]).0 <= i32::MAX,
        reg_lines_wf(reg),
    ensures
        all_lines_wf(remains_lines(reg, off)),
    decreases reg.len(),
{
    if reg.len() > 0 {
        let tail = reg.drop_first();
        assert(forall|j: int| 0 <= j < tail.len() ==> (#[trigger] tail[j]) == reg[j + 1]);
        lemma_remains_lines_wf(tail, off);
        let head_lines = if reg[0].0 >= off {
            pair_lines_entry(reg[0].0, reg[0].1)
        } else {
            Seq::<Seq<u8>>::empty()
        };
        if reg[0].0 >= off {
            assert(forall|t: int| 0 <= t < reg[0].1.len() ==> line_wf(#[trigger] reg[0].1[t]));
            lemma_pair_entry_lines_wf(reg[0].0, reg[0].1);
        }
        let whole = remains_lines(reg, off);
        assert(whole == head_lines + remains_lines(tail, off));
        assert forall|t: int| 0 <= t < whole.len() implies line_wf(#[trigger] whole[t]) by {
            if t < head_lines.len() {
                assert(whole[t] == head_lines[t]);
            } else {
                assert(whole[t] == remains_lines(tail, off)[t - head_lines.len()]);
            }
        }
    }
}

/// The round trip down at the byte level: the file the rewrite protocol
/// emits, read back as bytes and scanned, answers every preserved index with
/// exactly the text that was written. Beside the marker conditions of the
/// line-level round trip, every written line must be free of inner newlines
/// and trailing carriage returns, as every generated and every scanned line
/// is.
pub proof fn lemma_round_trip_bytes(
    lead: Seq<Seq<u8>>,
    reg: Registry,
    blocks: Seq<Seq<Seq<u8>>>,
    trail: Seq<Seq<u8>>,
    k: int,
)
    requires
        block_lines_safe(lead),
        block_lines_safe(trail),
        all_lines_wf(lead),
        all_lines_wf(trail),
        forall|j: int| 0 <= j < blocks.len() ==> block_lines_safe(#[trigger] blocks[j]),
        blocks_lines_wf(blocks),
        reg_sorted(reg),
        blocks.len() <= i32::MAX,
        forall|j: int|
            0 <= j < reg.len() ==> i32::MIN <= (#[trigger] reg[j]).0 <= i32::MAX
                && section_text_safe(reg[j].0, reg[j].1),
        reg_lines_wf(reg),
        0 <= k,
        reg_lookup(reg, k) is Some,
    ensures
        ({
            let full = lead + points_lines(reg, blocks, 0) + remains_lines(
                reg,
                blocks.len() as int,
            ) + trail;
            &&& spec_scan(join_lines(full)).1 is Idle
            &&& reg_lookup(spec_scan(join_lines(full)).0, k) == reg_lookup(reg, k)
        }),
{
    let pts = points_lines(reg, blocks, 0);
    let rem = remains_lines(reg, blocks.len() as int);
    let full = lead + pts + rem + trail;
    lemma_points_lines_wf(reg, blocks, 0);
    lemma_remains_lines_wf(reg, blocks.len() as int);
    assert forall|i: int| 0 <= i < full.len() implies line_wf(#[trigger] full[i]) by {
        if i < lead.len() {
            assert(full[i] == lead[i]);
        } else if i < lead.len() + pts.len() {
            assert(full[i] == pts[i - lead.len()]);
        } else if i < lead.len() + pts.len() + rem.len() {
            assert(full[i] == rem[i - lead.len() - pts.len()]);
        } else {
            assert(full[i] == trail[i - lead.len() - pts.len() - rem.len()]);
        }
    }
    lemma_lines_of_join(full);
    lemma_round_trip(lead, reg, blocks, trail, k);
}

/// A line whose first byte after leading whitespace is not a slash can be no
/// marker line: both markers begin with one.
pub proof fn lemma_no_marker_at(l: Seq<u8>, k: int)
    requires
        0 <= k < l.len(),
        forall|i: int| 0 <= i < k ==> is_ws(l[i]),
        !is_ws(l[k]),
        l[k] != 47,
    ensures
        begin_index_of(l) is None,
        end_index_of(l) is None,
{
    lemma_trim_front_skip(l, k);
    let t = l.skip(k);
    lemma_trim_back_prefix(t);
    assert(trimmed(l) == trim_back(t));
    if trimmed(l).len() > 0 {
        assert(trimmed(l)[0] == t[0]);
        assert(t[0] == l[k]);
        if starts_with(trimmed(l), begin_marker()) {
            assert(trimmed(l).take(begin_marker().len() as int)[0] == begin_marker()[0]);
            assert(false);
        }
        if starts_with(trimmed(l), end_marker()) {
            assert(trimmed(l).take(end_marker().len() as int)[0] == end_marker()[0]);
            assert(false);
        }
    } else {
        assert(!starts_with(trimmed(l), begin_marker()));
        assert(!starts_with(trimmed(l), end_marker()));
    }
}

/// An empty or all-whitespace line is no marker line.
pub proof fn lemma_blank_no_marker(l: Seq<u8>)
    requires
        forall|i: int| 0 <= i < l.len() ==> is_ws(l[i]),
    ensures
        begin_index_of(l) is None,
        end_index_of(l) is None,
{
    lemma_trim_front_skip(l, l.len() as int);
    assert(l.skip(l.len() as int) =~= Seq::<u8>::empty());
    assert(trimmed(l).len() == 0);
    assert(!starts_with(trimmed(l), begin_marker()));
    assert(!starts_with(trimmed(l), end_marker()));
}

} // verus!
