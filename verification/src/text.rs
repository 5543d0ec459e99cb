//! Byte-level text primitives: line splitting and joining, whitespace
//! trimming, and decimal integers, each specified exactly.
use vstd::arithmetic::div_mod::lemma_fundamental_div_mod;
use vstd::prelude::*;

verus! {

/// ASCII whitespace, the characters trimmed from marker lines.
pub open spec fn is_ws(b: u8) -> bool {
    b == 32 || (9 <= b && b <= 13)
}

/// `s` with leading ASCII whitespace removed.
pub open spec fn trim_front(s: Seq<u8>) -> Seq<u8>
    decreases s.len(),
{
    if s.len() > 0 && is_ws(s[0]) {
        trim_front(s.drop_first())
    } else {
        s
    }
}

/// `s` with trailing ASCII whitespace removed.
pub open spec fn trim_back(s: Seq<u8>) -> Seq<u8>
    decreases s.len(),
{
    if s.len() > 0 && is_ws(s.last()) {
        trim_back(s.drop_last())
    } else {
        s
    }
}

/// `s` with surrounding ASCII whitespace removed.
pub open spec fn trimmed(s: Seq<u8>) -> Seq<u8> {
    trim_back(trim_front(s))
}

pub proof fn lemma_trim_front_skip(s: Seq<u8>, k: int)
    requires
        0 <= k <= s.len(),
        forall|i: int| 0 <= i < k ==> is_ws(s[i]),
        k == s.len() || !is_ws(s[k]),
    ensures
        trim_front(s) == s.skip(k),
    decreases k,
{
    if k == 0 {
        assert(s.skip(0) =~= s);
    } else {
        assert(is_ws(s[0]));
        lemma_trim_front_skip(s.drop_first(), k - 1);
        assert(s.drop_first().skip(k - 1) =~= s.skip(k));
    }
}

pub proof fn lemma_trim_back_take(s: Seq<u8>, e: int)
    requires
        0 <= e <= s.len(),
        forall|i: int| e <= i < s.len() ==> is_ws(s[i]),
        e == 0 || !is_ws(s[e - 1]),
    ensures
        trim_back(s) == s.take(e),
    decreases s.len() - e,
{
    if e == s.len() {
        assert(s.take(e) =~= s);
    } else {
        assert(is_ws(s.last()));
        lemma_trim_back_take(s.drop_last(), e);
        assert(s.drop_last().take(e) =~= s.take(e));
    }
}

/// Whether a byte is ASCII whitespace.
pub fn ws_byte(b: u8) -> (r: bool)
    ensures
        r == is_ws(b),
{
    b == 32 || (9 <= b && b <= 13)
}

/// Copy `s` without its surrounding ASCII whitespace.
pub fn trim(s: &Vec<u8>) -> (r: Vec<u8>)
    ensures
        r@ == trimmed(s@),
{
    let mut start: usize = 0;
    while start < s.len() && ws_byte(s[start])
        invariant
            start <= s@.len(),
            forall|i: int| 0 <= i < start ==> is_ws(s@[i]),
        decreases s@.len() - start,
    {
        start = start + 1;
    }
    proof {
        lemma_trim_front_skip(s@, start as int);
    }
    let mut end: usize = s.len();
    while end > start && ws_byte(s[end - 1])
        invariant
            start <= end <= s@.len(),
            forall|i: int| end <= i < s@.len() ==> is_ws(s@[i]),
            trim_front(s@) == s@.skip(start as int),
        decreases end,
    {
        end = end - 1;
    }
    proof {
        let t = s@.skip(start as int);
        lemma_trim_back_take(t, end - start);
        assert(trimmed(s@) == t.take(end - start));
    }
    let mut r: Vec<u8> = Vec::new();
    let mut i: usize = start;
    while i < end
        invariant
            start <= i <= end <= s@.len(),
            r@.len() == i - start,
            forall|j: int| 0 <= j < r@.len() ==> r@[j] == s@[start + j],
        decreases end - i,
    {
        r.push(s[i]);
        i = i + 1;
    }
    proof {
        assert(r@ =~= s@.skip(start as int).take(end - start));
    }
    r
}

/// Append all of `src` to `dst`.
pub fn append_bytes(dst: &mut Vec<u8>, src: &Vec<u8>)
    ensures
        final(dst)@ == old(dst)@ + src@,
{
    let ghost base = dst@;
    let mut t: usize = 0;
    proof {
        assert(base + src@.take(0) =~= base);
    }
    while t < src.len()
        invariant
            t <= src@.len(),
            dst@ == base + src@.take(t as int),
        decreases src@.len() - t,
    {
        proof {
            assert((base + src@.take(t as int)).push(src@[t as int]) =~= base + src@.take(t + 1));
        }
        dst.push(src[t]);
        t = t + 1;
    }
    proof {
        assert(src@.take(src@.len() as int) =~= src@);
    }
}

/// A decimal digit.
pub open spec fn is_digit(b: u8) -> bool {
    48 <= b && b <= 57
}

/// The value of a string of decimal digits.
pub open spec fn digits_val(s: Seq<u8>) -> int
    decreases s.len(),
{
    if s.len() == 0 {
        0
    } else {
        digits_val(s.drop_last()) * 10 + (s.last() - 48)
    }
}

/// `s` without its leading sign character, if any.
pub open spec fn sign_skipped(s: Seq<u8>) -> Seq<u8> {
    if s.len() > 0 && (s[0] == 45 || s[0] == 43) {
        s.drop_first()
    } else {
        s
    }
}

/// Every byte is a decimal digit.
pub open spec fn all_digits(s: Seq<u8>) -> bool {
    forall|i: int| 0 <= i < s.len() ==> is_digit(s[i])
}

/// The signed value `s` denotes: negative when it starts with a minus sign.
pub open spec fn signed_val(s: Seq<u8>) -> int {
    if s.len() > 0 && s[0] == 45 {
        -digits_val(sign_skipped(s))
    } else {
        digits_val(sign_skipped(s))
    }
}

/// What `str::parse::<i32>` accepts: an optional sign, then one or more
/// decimal digits, valued within `i32`.
pub open spec fn parse_i32_spec(s: Seq<u8>) -> Option<int> {
    if sign_skipped(s).len() > 0 && all_digits(sign_skipped(s)) && i32::MIN <= signed_val(s)
        <= i32::MAX {
        Some(signed_val(s))
    } else {
        None
    }
}

proof fn lemma_digits_val_nonneg(s: Seq<u8>)
    requires
        forall|i: int| 0 <= i < s.len() ==> is_digit(s[i]),
    ensures
        digits_val(s) >= 0,
    decreases s.len(),
{
    if s.len() > 0 {
        lemma_digits_val_nonneg(s.drop_last());
    }
}

proof fn lemma_digits_val_prefix_le(s: Seq<u8>, k: int)
    requires
        forall|i: int| 0 <= i < s.len() ==> is_digit(s[i]),
        0 <= k <= s.len(),
    ensures
        digits_val(s.take(k)) <= digits_val(s),
    decreases s.len() - k,
{
    if k < s.len() {
        lemma_digits_val_prefix_le(s, k + 1);
        let t = s.take(k + 1);
        assert(t.drop_last() =~= s.take(k));
        lemma_digits_val_nonneg(s.take(k));
        assert(digits_val(t) == digits_val(s.take(k)) * 10 + (s[k] - 48));
        assert(digits_val(s.take(k)) <= digits_val(s.take(k)) * 10) by (nonlinear_arith)
            requires
                digits_val(s.take(k)) >= 0,
        ;
    } else {
        assert(s.take(k) =~= s);
    }
}

/// Parse a signed decimal integer exactly as `str::parse::<i32>` does.
pub fn parse_i32(s: &Vec<u8>) -> (r: Option<i32>)
    ensures
        r matches Some(v) ==> parse_i32_spec(s@) == Some(v as int),
        r is None ==> parse_i32_spec(s@) is None,
{
    let mut i: usize = 0;
    let mut neg = false;
    if s.len() > 0 && (s[0] == 45 || s[0] == 43) {
        neg = s[0] == 45;
        i = 1;
    }
    let ghost ds = sign_skipped(s@);
    proof {
        if s@.len() > 0 && (s@[0] == 45 || s@[0] == 43) {
            assert(ds =~= s@.skip(1));
        } else {
            assert(ds =~= s@.skip(0));
        }
    }
    if i >= s.len() {
        assert(ds.len() == 0);
        return None;
    }
    let mut acc: i64 = 0;
    let start = i;
    while i < s.len()
        invariant
            start <= i <= s@.len(),
            start == if s@.len() > 0 && (s@[0] == 45 || s@[0] == 43) {
                1int
            } else {
                0int
            },
            ds == s@.skip(start as int),
            ds == sign_skipped(s@),
            neg == (s@.len() > 0 && s@[0] == 45),
            forall|j: int| start <= j < i ==> is_digit(s@[j]),
            acc == digits_val(ds.take(i - start)),
            0 <= acc <= 0x8000_0000,
        decreases s@.len() - i,
    {
        let b = s[i];
        assert(ds[i - start] == s@[i as int]);
        if b < 48 || b > 57 {
            assert(!is_digit(ds[i - start]));
            return None;
        }
        assert(ds.take(i + 1 - start).drop_last() =~= ds.take(i - start));
        if acc > 214748364 || (acc == 214748364 && b > 56) {
            // The digits read so far already put the value outside i32;
            // further digits only grow it.
            proof {
                if all_digits(ds) {
                    lemma_digits_val_prefix_le(ds, i + 1 - start);
                    assert(digits_val(ds.take(i + 1 - start)) == acc * 10 + (b - 48));
                    assert(digits_val(ds) >= 0x8000_0001);
                }
            }
            return None;
        }
        acc = acc * 10 + ((b - 48) as i64);
        i = i + 1;
    }
    proof {
        assert(ds.take(i - start) =~= ds);
    }
    if neg {
        if acc > 0x8000_0000 {
            return None;
        }
        Some((-acc) as i32)
    } else {
        if acc > 0x7fff_ffff {
            return None;
        }
        Some(acc as i32)
    }
}

/// A line as stored or emitted: no newline inside, no carriage return at the
/// end, so that joining and re-splitting give the line back.
pub open spec fn line_wf(l: Seq<u8>) -> bool {
    (forall|i: int| 0 <= i < l.len() ==> l[i] != 10) && (l.len() == 0 || l.last() != 13)
}

/// The distance to the first newline byte, or the length if there is none.
pub open spec fn find_nl(s: Seq<u8>) -> nat
    decreases s.len(),
{
    if s.len() == 0 {
        0
    } else if s[0] == 10 {
        0
    } else {
        1 + find_nl(s.drop_first())
    }
}

/// A line with a trailing carriage return removed, as `str::lines` does.
pub open spec fn strip_cr(l: Seq<u8>) -> Seq<u8> {
    if l.len() > 0 && l.last() == 13 {
        l.drop_last()
    } else {
        l
    }
}

/// The lines of a byte text, split at newlines, each with a trailing
/// carriage return removed; a final line ending is optional.
pub open spec fn lines_of(s: Seq<u8>) -> Seq<Seq<u8>>
    decreases s.len(),
{
    if s.len() == 0 {
        Seq::empty()
    } else {
        let k = find_nl(s);
        if k >= s.len() {
            seq![strip_cr(s)]
        } else {
            seq![strip_cr(s.take(k as int))] + lines_of(s.skip(k as int + 1))
        }
    }
}

/// Every line emitted followed by a newline byte.
pub open spec fn join_lines(ls: Seq<Seq<u8>>) -> Seq<u8>
    decreases ls.len(),
{
    if ls.len() == 0 {
        Seq::empty()
    } else {
        ls[0] + seq![10u8] + join_lines(ls.drop_first())
    }
}

proof fn lemma_find_nl_at(s: Seq<u8>, k: int)
    requires
        0 <= k <= s.len(),
        forall|i: int| 0 <= i < k ==> s[i] != 10,
        k == s.len() || s[k] == 10,
    ensures
        find_nl(s) == k,
    decreases k,
{
    if k == 0 {
    } else {
        lemma_find_nl_at(s.drop_first(), k - 1);
    }
}

/// Splitting the joined lines gives the lines back, provided each is a
/// well-formed line.
pub proof fn lemma_lines_of_join(ls: Seq<Seq<u8>>)
    requires
        forall|i: int| 0 <= i < ls.len() ==> line_wf(#[trigger] ls[i]),
    ensures
        lines_of(join_lines(ls)) == ls,
    decreases ls.len(),
{
    if ls.len() == 0 {
        assert(lines_of(join_lines(ls)) =~= ls);
    } else {
        let j = join_lines(ls);
        let head = ls[0];
        let rest = join_lines(ls.drop_first());
        assert(line_wf(head));
        assert(j == head + seq![10u8] + rest);
        assert(forall|i: int| 0 <= i < head.len() ==> j[i] != 10);
        assert(j[head.len() as int] == 10);
        lemma_find_nl_at(j, head.len() as int);
        assert(j.take(head.len() as int) =~= head);
        assert(strip_cr(head) == head);
        assert(j.skip(head.len() as int + 1) =~= rest);
        lemma_lines_of_join(ls.drop_first());
        assert(lines_of(j) =~= ls);
    }
}

/// Split a byte text into its lines.
pub fn split_lines(s: &Vec<u8>) -> (r: Vec<Vec<u8>>)
    ensures
        r.deep_view() == lines_of(s@),
{
    let mut out: Vec<Vec<u8>> = Vec::new();
    let mut pos: usize = 0;
    proof {
        assert(out.deep_view() =~~= Seq::<Seq<u8>>::empty());
        assert(s@.skip(0) =~= s@);
        assert(out.deep_view() + lines_of(s@) =~= lines_of(s@));
    }
    while pos < s.len()
        invariant
            pos <= s@.len(),
            lines_of(s@) == out.deep_view() + lines_of(s@.skip(pos as int)),
        decreases s@.len() - pos,
    {
        let ghost rem = s@.skip(pos as int);
        let mut j: usize = pos;
        while j < s.len() && s[j] != 10
            invariant
                pos <= j <= s@.len(),
                forall|i: int| pos <= i < j ==> s@[i] != 10,
            decreases s@.len() - j,
        {
            j = j + 1;
        }
        proof {
            lemma_find_nl_at(rem, j - pos);
        }
        let mut endb = j;
        if endb > pos && s[endb - 1] == 13 {
            endb = endb - 1;
        }
        let mut line: Vec<u8> = Vec::new();
        let mut i: usize = pos;
        while i < endb
            invariant
                pos <= i <= endb <= s@.len(),
                line@.len() == i - pos,
                forall|t: int| 0 <= t < line@.len() ==> line@[t] == s@[pos + t],
            decreases endb - i,
        {
            line.push(s[i]);
            i = i + 1;
        }
        proof {
            assert(rem.take(j - pos) =~= s@.subrange(pos as int, j as int));
            assert(line@ =~= strip_cr(rem.take(j - pos)));
        }
        let ghost prev = out.deep_view();
        out.push(line);
        proof {
            assert(out.deep_view() =~~= prev.push(line@));
        }
        if j >= s.len() {
            // Final line without a trailing newline.
            proof {
                assert(rem.take(j - pos) =~= rem);
                assert(lines_of(rem) =~= seq![strip_cr(rem)]);
                assert(lines_of(s@.skip(s@.len() as int)) =~= Seq::<Seq<u8>>::empty());
                assert(lines_of(s@) =~~= out.deep_view() + lines_of(s@.skip(s@.len() as int)));
            }
            pos = s.len();
        } else {
            proof {
                assert(lines_of(rem) == seq![strip_cr(rem.take(j - pos))] + lines_of(
                    rem.skip(j - pos + 1),
                ));
                assert(rem.skip(j - pos + 1) =~= s@.skip(j + 1));
                assert(lines_of(s@) =~~= out.deep_view() + lines_of(s@.skip(j + 1)));
            }
            pos = j + 1;
        }
    }
    proof {
        assert(lines_of(s@.skip(pos as int)) =~= Seq::<Seq<u8>>::empty());
        assert(lines_of(s@) =~~= out.deep_view());
    }
    out
}

/// Join lines into a byte text, a newline after every line.
pub fn join_lines_vec(ls: &Vec<Vec<u8>>) -> (r: Vec<u8>)
    ensures
        r@ == join_lines(ls.deep_view()),
{
    let mut out: Vec<u8> = Vec::new();
    let mut i: usize = 0;
    proof {
        assert(ls.deep_view().skip(0) =~= ls.deep_view());
        assert(out@ + join_lines(ls.deep_view()) =~= join_lines(ls.deep_view()));
    }
    while i < ls.len()
        invariant
            i <= ls@.len(),
            join_lines(ls.deep_view()) == out@ + join_lines(ls.deep_view().skip(i as int)),
        decreases ls@.len() - i,
    {
        let ghost pre = out@;
        let ghost tail = ls.deep_view().skip(i as int);
        let line = &ls[i];
        let mut t: usize = 0;
        while t < line.len()
            invariant
                t <= line@.len(),
                out@ == pre + line@.take(t as int),
            decreases line@.len() - t,
        {
            proof {
                assert((pre + line@.take(t as int)).push(line@[t as int]) =~= pre + line@.take(
                    t + 1,
                ));
            }
            out.push(line[t]);
            t = t + 1;
        }
        out.push(10);
        proof {
            assert(line@.take(line@.len() as int) =~= line@);
            assert(tail[0] == line@);
            assert(tail.drop_first() =~= ls.deep_view().skip(i + 1));
            assert(join_lines(tail) == line@ + seq![10u8] + join_lines(tail.drop_first()));
            assert(out@ =~= pre + (line@ + seq![10u8]));
            assert(out@ + join_lines(ls.deep_view().skip(i + 1)) =~= pre + join_lines(tail));
        }
        i = i + 1;
    }
    proof {
        assert(ls.deep_view().skip(ls@.len() as int) =~= Seq::<Seq<u8>>::empty());
        assert(out@ =~= out@ + join_lines(ls.deep_view().skip(ls@.len() as int)));
    }
    out
}

/// The decimal digits of a nonnegative integer.
pub open spec fn dec_nat(n: int) -> Seq<u8>
    decreases n,
{
    if n <= 0 {
        seq![48u8]
    } else if n < 10 {
        seq![(48 + n) as u8]
    } else {
        dec_nat(n / 10).push((48 + n % 10) as u8)
    }
}

/// The decimal form of a signed integer: a minus sign and the digits of the
/// magnitude.
pub open spec fn dec_int(n: int) -> Seq<u8> {
    if n < 0 {
        seq![45u8] + dec_nat(-n)
    } else {
        dec_nat(n)
    }
}

/// Render a `u64` in decimal.
pub fn u64_to_dec(n: u64) -> (r: Vec<u8>)
    ensures
        r@ == dec_nat(n as int),
    decreases n,
{
    if n < 10 {
        let mut r: Vec<u8> = Vec::new();
        r.push(48 + (n as u8));
        proof {
            assert(r@ =~= dec_nat(n as int));
        }
        r
    } else {
        let mut r = u64_to_dec(n / 10);
        r.push(48 + ((n % 10) as u8));
        r
    }
}

/// Render an `i32` in decimal, as `Display` writes it.
pub fn i32_to_dec(n: i32) -> (r: Vec<u8>)
    ensures
        r@ == dec_int(n as int),
{
    if n < 0 {
        let mag: u64 = (-(n as i64)) as u64;
        let mut r: Vec<u8> = Vec::new();
        r.push(45);
        let ds = u64_to_dec(mag);
        let mut j: usize = 0;
        while j < ds.len()
            invariant
                j <= ds@.len(),
                r@ == seq![45u8] + ds@.take(j as int),
            decreases ds@.len() - j,
        {
            assert((seq![45u8] + ds@.take(j as int)).push(ds@[j as int]) =~= seq![45u8]
                + ds@.take(j + 1));
            r.push(ds[j]);
            j = j + 1;
        }
        proof {
            assert(ds@.take(ds@.len() as int) =~= ds@);
        }
        r
    } else {
        u64_to_dec(n as u64)
    }
}

/// A nonempty line whose first and last bytes are not whitespace trims to
/// itself.
pub proof fn lemma_trimmed_identity(l: Seq<u8>)
    requires
        l.len() > 0,
        !is_ws(l[0]),
        !is_ws(l.last()),
    ensures
        trimmed(l) == l,
{
    lemma_trim_front_skip(l, 0);
    assert(l.skip(0) =~= l);
    lemma_trim_back_take(l, l.len() as int);
    assert(l.take(l.len() as int) =~= l);
}

/// The decimal digits of a nonnegative integer: nonempty, all digits, and
/// they denote the integer itself.
pub proof fn lemma_dec_nat_digits(n: int)
    requires
        n >= 0,
    ensures
        dec_nat(n).len() >= 1,
        all_digits(dec_nat(n)),
        digits_val(dec_nat(n)) == n,
    decreases n,
{
    if n <= 0 {
        let s = seq![48u8];
        assert(dec_nat(n) == s);
        assert(s.drop_last() =~= Seq::<u8>::empty());
        assert(digits_val(Seq::<u8>::empty()) == 0);
        assert(s.last() == 48);
        assert(digits_val(s) == 0 * 10 + (48 - 48));
    } else if n < 10 {
        let s = seq![(48 + n) as u8];
        assert(dec_nat(n) == s);
        assert(s.drop_last() =~= Seq::<u8>::empty());
        assert(digits_val(Seq::<u8>::empty()) == 0);
        assert(s.last() == (48 + n) as u8);
        assert(digits_val(s) == 0 * 10 + ((48 + n) - 48));
    } else {
        lemma_dec_nat_digits(n / 10);
        let s = dec_nat(n);
        assert(s == dec_nat(n / 10).push((48 + n % 10) as u8));
        assert(s.drop_last() =~= dec_nat(n / 10));
        assert(s.last() == (48 + n % 10) as u8);
        lemma_fundamental_div_mod(n, 10);
        assert(digits_val(s) == (n / 10) * 10 + n % 10);
        assert(digits_val(s) == n);
        assert forall|i: int| 0 <= i < s.len() implies is_digit(#[trigger] s[i]) by {
            if i < s.len() - 1 {
                assert(s[i] == dec_nat(n / 10)[i]);
                assert(is_digit(dec_nat(n / 10)[i]));
            } else {
                assert(s[i] == (48 + n % 10) as u8);
            }
        }
    }
}

/// A signed decimal rendering parses back to the integer it was made from.
pub proof fn lemma_parse_dec_int(idx: int)
    requires
        i32::MIN <= idx <= i32::MAX,
    ensures
        parse_i32_spec(dec_int(idx)) == Some(idx),
        dec_int(idx).len() >= 1,
        !is_ws(dec_int(idx)[0]),
        !is_ws(dec_int(idx).last()),
        forall|i: int|
            0 <= i < dec_int(idx).len() ==> #[trigger] dec_int(idx)[i] == 45 || is_digit(
                dec_int(idx)[i],
            ),
{
    if idx >= 0 {
        lemma_dec_nat_digits(idx);
        let s = dec_nat(idx);
        assert(is_digit(s[0]));
        assert(is_digit(s.last()));
        assert(sign_skipped(s) == s);
        assert(signed_val(s) == idx);
    } else {
        lemma_dec_nat_digits(-idx);
        let d = dec_nat(-idx);
        let s = seq![45u8] + d;
        assert(s[0] == 45);
        assert(s.last() == d.last());
        assert(is_digit(d.last()));
        assert(sign_skipped(s) =~= d);
        assert(signed_val(s) == -digits_val(d));
        assert(all_digits(sign_skipped(s)));
        assert(forall|i: int| 1 <= i < s.len() ==> #[trigger] s[i] == d[i - 1]);
    }
}


/// Trimming the back keeps a prefix of the line unchanged.
pub proof fn lemma_trim_back_prefix(s: Seq<u8>)
    ensures
        trim_back(s).len() <= s.len(),
        forall|i: int| 0 <= i < trim_back(s).len() ==> trim_back(s)[i] == s[i],
    decreases s.len(),
{
    if s.len() > 0 && is_ws(s.last()) {
        lemma_trim_back_prefix(s.drop_last());
        assert forall|i: int| 0 <= i < trim_back(s).len() implies trim_back(s)[i] == s[i] by {
            assert(trim_back(s)[i] == s.drop_last()[i]);
        }
    }
}

} // verus!
