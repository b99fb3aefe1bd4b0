//! Text metrics of the built-in proportional bitmap font.
//!
//! Each glyph occupies a cell nine rows tall: rows 0-6 carry the cap height
//! and rows 7-8 the descenders, with the baseline directly under row 6. Widths
//! vary per glyph and come from a [`GlyphTable`]. Text is measured at an
//! integer `scale`.

use vstd::prelude::*;
use vstd::string::{StrSliceExecFns, StringExecFns};

verus! {

/// Blank columns between two glyphs, before scaling.
pub const TRACKING: u32 = 1;

/// Blank rows between two lines, before scaling.
pub const LEADING: u32 = 2;

/// Rows in a glyph cell.
pub const ROWS: u32 = 9;

/// Rows from the top of a cell down to the baseline.
pub const BASELINE: u32 = 7;

/// The ink width of each glyph, for the characters `first..=last`.
pub struct GlyphTable {
    pub first: u8,
    pub last: u8,
    pub widths: Vec<u8>,
}

impl GlyphTable {
    /// A table covers `first..=last`, one width each, `?` among them.
    pub open spec fn wf(&self) -> bool {
        &&& self.first <= 63 <= self.last
        &&& self.widths@.len() == self.last - self.first + 1
    }

    /// The table index of `c`: `?` stands in for anything outside it.
    pub open spec fn slot_spec(&self, c: char) -> int {
        if self.first <= (c as int) <= self.last {
            (c as int) - self.first
        } else {
            63 - self.first
        }
    }

    /// The ink columns of `c`, before scaling.
    pub open spec fn width_of(&self, c: char) -> nat {
        self.widths@[self.slot_spec(c)] as nat
    }
}

/// Width in font units of a line of characters: ink plus tracking between.
pub open spec fn units(t: &GlyphTable, s: Seq<char>) -> nat
    decreases s.len(),
{
    if s.len() == 0 {
        0
    } else if s.len() == 1 {
        t.width_of(s[0])
    } else {
        (units(t, s.drop_last()) + TRACKING + t.width_of(s.last())) as nat
    }
}

/// The characters before the first newline.
pub open spec fn first_line(s: Seq<char>) -> Seq<char>
    decreases s.len(),
{
    if s.len() == 0 || s[0] == '\n' {
        seq![]
    } else {
        seq![s[0]] + first_line(s.skip(1))
    }
}

/// The width of the first line of `s` at `scale`.
pub open spec fn text_width_spec(t: &GlyphTable, s: Seq<char>, scale: u32) -> int {
    units(t, first_line(s)) * scale
}

/// The widest line of `s`, in font units.
pub open spec fn block_units(t: &GlyphTable, s: Seq<char>) -> nat
    decreases s.len(),
{
    let w = units(t, first_line(s));
    let n = first_line(s).len();
    if n < s.len() {
        let rest = block_units(t, s.skip(n + 1 as int));
        if w >= rest {
            w
        } else {
            rest
        }
    } else {
        w
    }
}

/// The number of newlines in `s`.
pub open spec fn newlines(s: Seq<char>) -> nat
    decreases s.len(),
{
    if s.len() == 0 {
        0
    } else {
        (if s[0] == '\n' {
            1nat
        } else {
            0nat
        }) + newlines(s.skip(1))
    }
}

/// The first line is a prefix with no newline, followed by a newline or the end.
proof fn lemma_first_line(s: Seq<char>)
    ensures
        first_line(s).len() <= s.len(),
        first_line(s) == s.take(first_line(s).len() as int),
        forall|i: int| 0 <= i < first_line(s).len() ==> s[i] != '\n',
        first_line(s).len() < s.len() ==> s[first_line(s).len() as int] == '\n',
    decreases s.len(),
{
    if s.len() > 0 && s[0] != '\n' {
        lemma_first_line(s.skip(1));
        assert(first_line(s) =~= s.take(first_line(s).len() as int));
        assert forall|i: int| 0 <= i < first_line(s).len() implies s[i] != '\n' by {
            if i > 0 {
                assert(s[i] == s.skip(1)[i - 1]);
            }
        }
    }
}

/// A line prefix is no wider than the line.
proof fn lemma_units_prefix(t: &GlyphTable, s: Seq<char>, j: int)
    requires
        0 <= j <= s.len(),
    ensures
        units(t, s.take(j)) <= units(t, s),
    decreases s.len(),
{
    if j < s.len() {
        assert(s.drop_last().take(j) =~= s.take(j));
        lemma_units_prefix(t, s.drop_last(), j);
    } else {
        assert(s.take(j) =~= s);
    }
}

/// Height of one line of text at `scale`, in pixels.
#[inline]
pub fn line_height(scale: u32) -> (r: u32)
    requires
        ROWS * scale <= u32::MAX,
    ensures
        r == ROWS * scale,
{
    ROWS * scale
}

/// Distance from the top of a cell down to the baseline, in pixels.
#[inline]
pub fn baseline(scale: u32) -> (r: u32)
    requires
        BASELINE * scale <= u32::MAX,
    ensures
        r == BASELINE * scale,
{
    BASELINE * scale
}

/// The glyph index for `ch`, substituting `?` for anything outside the table.
#[inline]
fn slot(t: &GlyphTable, ch: char) -> (r: usize)
    requires
        t.wf(),
    ensures
        r == t.slot_spec(ch),
        r < t.widths@.len(),
{
    let c = ch as u32;
    if (t.first as u32) <= c && c <= (t.last as u32) {
        (c - t.first as u32) as usize
    } else {
        (63 - t.first) as usize
    }
}

/// Ink columns of one glyph, before scaling.
#[inline]
fn glyph_width(t: &GlyphTable, ch: char) -> (r: u32)
    requires
        t.wf(),
    ensures
        r == t.width_of(ch),
{
    t.widths[slot(t, ch)] as u32
}

/// The characters of a string.
pub fn chars_of(text: &str) -> (r: Vec<char>)
    ensures
        r@ == text@,
{
    let mut v: Vec<char> = Vec::new();
    for c in it: text.chars()
        invariant
            v@ == it.seq().take(it.index() as int),
    {
        v.push(c);
    }
    v
}

/// Font units of the line of `s` starting at `start`, and where it ends.
fn line_units(t: &GlyphTable, s: &Vec<char>, start: usize) -> (r: (u32, usize))
    requires
        t.wf(),
        start <= s@.len(),
        units(t, first_line(s@.skip(start as int))) <= u32::MAX,
    ensures
        r.0 == units(t, first_line(s@.skip(start as int))),
        r.1 == start + first_line(s@.skip(start as int)).len(),
{
    let ghost line = first_line(s@.skip(start as int));
    proof {
        lemma_first_line(s@.skip(start as int));
    }
    let mut w: u32 = 0;
    let mut i: usize = start;
    while i < s.len() && s[i] != '\n'
        invariant
            t.wf(),
            start <= i <= s@.len(),
            line == first_line(s@.skip(start as int)),
            line.len() <= s@.len() - start,
            line == s@.skip(start as int).take(line.len() as int),
            forall|j: int| 0 <= j < line.len() ==> s@.skip(start as int)[j] != '\n',
            line.len() < s@.len() - start ==> s@.skip(start as int)[line.len() as int] == '\n',
            units(t, line) <= u32::MAX,
            i - start <= line.len(),
            w == units(t, line.take(i - start)),
        decreases s@.len() - i,
    {
        proof {
            assert(s@.skip(start as int)[i - start] == s@[i as int]);
            if i - start == line.len() {
                assert(false);
            }
            lemma_units_prefix(t, line, i - start + 1);
            assert(line.take(i - start + 1).drop_last() =~= line.take(i - start));
            assert(line[i - start] == s@.skip(start as int).take(line.len() as int)[i - start]);
            assert(line[i - start] == s@[i as int]);
        }
        if i > start {
            w = w + TRACKING;
        }
        w = w + glyph_width(t, s[i]);
        i = i + 1;
    }
    proof {
        if i - start < line.len() {
            assert(s@.skip(start as int)[i - start] == s@[i as int]);
        }
        assert(line.take(line.len() as int) =~= line);
    }
    (w, i)
}

/// Width of a single line of `text` at `scale`, in pixels.
///
/// Only the first line counts, and trailing tracking does not, so two
/// strings drawn back to back with this as the offset sit exactly one
/// tracking column apart.
pub fn text_width(t: &GlyphTable, text: &str, scale: u32) -> (r: u32)
    requires
        t.wf(),
        units(t, first_line(text@)) <= u32::MAX,
        text_width_spec(t, text@, scale) <= u32::MAX,
    ensures
        r == text_width_spec(t, text@, scale),
{
    let cs = chars_of(text);
    assert(cs@.skip(0) =~= text@);
    let (w, _) = line_units(t, &cs, 0);
    w * scale
}


/// The first line of a prefix is a prefix of the first line.
proof fn lemma_first_line_take(s: Seq<char>, m: int)
    requires
        0 <= m <= s.len(),
    ensures
        first_line(s.take(m)) == first_line(s).take(
            if m <= first_line(s).len() {
                m
            } else {
                first_line(s).len() as int
            },
        ),
    decreases s.len(),
{
    lemma_first_line(s);
    lemma_first_line(s.take(m));
    if s.len() > 0 && s[0] != '\n' && m > 0 {
        assert(s.take(m).skip(1) =~= s.skip(1).take(m - 1));
        lemma_first_line_take(s.skip(1), m - 1);
        assert(s.take(m)[0] == s[0]);
        assert(first_line(s.take(m)) =~= first_line(s).take(
            if m <= first_line(s).len() {
                m
            } else {
                first_line(s).len() as int
            },
        ));
    } else {
        assert(first_line(s.take(m)) =~= first_line(s).take(
            if m <= first_line(s).len() {
                m
            } else {
                first_line(s).len() as int
            },
        ));
    }
}

/// A prefix of a text is no wider than the text.
proof fn lemma_prefix_width(t: &GlyphTable, s: Seq<char>, m: int)
    requires
        0 <= m <= s.len(),
    ensures
        units(t, first_line(s.take(m))) <= units(t, first_line(s)),
{
    lemma_first_line(s);
    lemma_first_line_take(s, m);
    let l = first_line(s).len() as int;
    lemma_units_prefix(t, first_line(s), if m <= l { m } else { l });
}

/// The block width is at least the first line's.
proof fn lemma_block_first(t: &GlyphTable, s: Seq<char>)
    ensures
        units(t, first_line(s)) <= block_units(t, s),
{
}

/// Scaling commutes with taking the larger.
proof fn lemma_max_scale(a: nat, b: nat, c: nat)
    ensures
        (if a >= b {
            a
        } else {
            b
        }) * c == (if a * c >= b * c {
            a * c
        } else {
            b * c
        }),
{
    if a >= b {
        assert(a * c >= b * c) by (nonlinear_arith)
            requires
                a >= b,
        ;
    } else {
        assert(a * c <= b * c) by (nonlinear_arith)
            requires
                a < b,
        ;
    }
}

/// Width of the widest line in `text`, in pixels.
pub fn text_block_width(t: &GlyphTable, text: &str, scale: u32) -> (r: u32)
    requires
        t.wf(),
        block_units(t, text@) <= u32::MAX,
        block_units(t, text@) * scale <= u32::MAX,
    ensures
        r == block_units(t, text@) * scale,
{
    let cs = chars_of(text);
    let ghost s = cs@;
    let mut best: u32 = 0;
    let mut start: usize = 0;
    assert(s.skip(0) =~= s);
    loop
        invariant
            t.wf(),
            s == cs@,
            s == text@,
            start <= s.len(),
            block_units(t, s) <= u32::MAX,
            block_units(t, s) * scale <= u32::MAX,
            block_units(t, s.skip(start as int)) <= block_units(t, s),
            block_units(t, s) * scale == (if best >= block_units(t, s.skip(start as int)) * scale {
                best as int
            } else {
                block_units(t, s.skip(start as int)) * scale
            }),
        decreases s.len() - start,
    {
        proof {
            lemma_block_first(t, s.skip(start as int));
            lemma_first_line(s.skip(start as int));
        }
        let (w, end) = line_units(t, &cs, start);
        proof {
            assert(w * scale <= block_units(t, s) * scale) by (nonlinear_arith)
                requires
                    w <= block_units(t, s),
            ;
            let n = (end - start) as int;
            let sk = s.skip(start as int);
            if n < sk.len() {
                lemma_max_scale(w as nat, block_units(t, sk.skip(n + 1)), scale as nat);
            }
        }
        let tw = w * scale;
        if tw > best {
            best = tw;
        }
        if end >= cs.len() {
            return best;
        }
        proof {
            assert(s.skip(start as int).skip((end - start) + 1) =~= s.skip(end + 1));
        }
        start = end + 1;
    }
}

/// Height of `text` in pixels, counting its newlines.
pub fn text_block_height(text: &str, scale: u32) -> (r: u32)
    requires
        newlines(text@) * LEADING <= u32::MAX,
        (newlines(text@) + 1) * (ROWS * scale) + newlines(text@) * (LEADING * scale) <= u32::MAX,
    ensures
        r == (newlines(text@) + 1) * (ROWS * scale) + newlines(text@) * (LEADING * scale),
{
    let cs = chars_of(text);
    let mut count: u32 = 0;
    let mut i: usize = 0;
    proof {
        assert(cs@.skip(0) =~= cs@);
    }
    while i < cs.len()
        invariant
            cs@ == text@,
            i <= cs@.len(),
            count + newlines(cs@.skip(i as int)) == newlines(text@),
            newlines(text@) * LEADING <= u32::MAX,
        decreases cs@.len() - i,
    {
        proof {
            assert(cs@.skip(i as int).skip(1) =~= cs@.skip(i as int + 1));
        }
        if cs[i] == '\n' {
            count = count + 1;
        }
        i = i + 1;
    }
    proof {
        assert(cs@.skip(i as int).len() == 0);
        assert(newlines(cs@.skip(i as int)) == 0);
        assert(count == newlines(text@));
        assert((count + 1) * (ROWS * scale) <= u32::MAX) by (nonlinear_arith)
            requires
                (count + 1) * (ROWS * scale) + count * (LEADING * scale) <= u32::MAX,
                count >= 0,
                scale >= 0,
        ;
        assert(ROWS * scale <= u32::MAX) by (nonlinear_arith)
            requires
                (count + 1) * (ROWS * scale) <= u32::MAX,
                count >= 0,
        ;
        assert(count * LEADING * scale <= u32::MAX) by (nonlinear_arith)
            requires
                (count + 1) * (ROWS * scale) + count * (LEADING * scale) <= u32::MAX,
                count >= 0,
                scale >= 0,
        ;
    }
    let lines = count + 1;
    let body = lines * line_height(scale);
    let gaps = lines.saturating_sub(1) * LEADING * scale;
    assert(gaps == count * (LEADING * scale)) by (nonlinear_arith)
        requires
            gaps == count * LEADING * scale,
    ;
    body + gaps
}

/// The three dots that end a shortened text.
pub open spec fn dots() -> Seq<char> {
    seq!['.', '.', '.']
}

/// How many characters of `s` fit before the dots: the first `k` whose
/// extension by one more character would not fit, or all of them.
pub open spec fn cut_point(t: &GlyphTable, s: Seq<char>, scale: u32, limit: int, k: nat) -> nat
    decreases s.len() - k,
{
    if k >= s.len() {
        k
    } else if text_width_spec(t, s.take(k + 1 as int), scale) + TRACKING * scale + text_width_spec(
        t,
        dots(),
        scale,
    ) > limit {
        k
    } else {
        cut_point(t, s, scale, limit, k + 1)
    }
}

/// What `ellipsize` returns.
pub open spec fn ellipsize_spec(t: &GlyphTable, s: Seq<char>, max_width: u32, scale: u32) -> Seq<char> {
    if text_width_spec(t, s, scale) <= max_width {
        s
    } else if text_width_spec(t, dots(), scale) > max_width {
        seq![]
    } else {
        s.take(cut_point(t, s, scale, max_width as int, 0) as int) + dots()
    }
}

proof fn lemma_first_line_dots()
    ensures
        first_line(dots()) == dots(),
{
    let d0 = dots();
    let d1 = d0.skip(1);
    let d2 = d1.skip(1);
    let d3 = d2.skip(1);
    assert(d3.len() == 0);
    assert(first_line(d3) == Seq::<char>::empty());
    assert(d2 =~= seq!['.']);
    assert(first_line(d2) =~= seq!['.']);
    assert(d1 =~= seq!['.', '.']);
    assert(first_line(d1) =~= seq!['.', '.']);
    assert(first_line(d0) =~= d0);
}

/// Width of the first `m` characters of `cs`, at `scale`.
fn prefix_width(t: &GlyphTable, cs: &Vec<char>, m: usize, scale: u32) -> (r: u32)
    requires
        t.wf(),
        m <= cs@.len(),
        units(t, first_line(cs@)) <= u32::MAX,
        text_width_spec(t, cs@, scale) <= u32::MAX,
    ensures
        r == text_width_spec(t, cs@.take(m as int), scale),
{
    let mut trial: Vec<char> = Vec::new();
    let mut j: usize = 0;
    while j < m
        invariant
            j <= m <= cs@.len(),
            trial@ == cs@.take(j as int),
        decreases m - j,
    {
        trial.push(cs[j]);
        j = j + 1;
        assert(trial@ =~= cs@.take(j as int));
    }
    proof {
        lemma_prefix_width(t, cs@, m as int);
        assert(trial@.skip(0) =~= trial@);
        assert(units(t, first_line(trial@)) * scale <= units(t, first_line(cs@)) * scale)
            by (nonlinear_arith)
            requires
                units(t, first_line(trial@)) <= units(t, first_line(cs@)),
        ;
    }
    let (w, _) = line_units(t, &trial, 0);
    w * scale
}

/// Shorten `text` to fit `max_width` pixels at `scale`, ending in an ellipsis.
///
/// Returns `text` unchanged when it already fits, and an empty string when not
/// even the ellipsis does.
pub fn ellipsize(t: &GlyphTable, text: &str, max_width: u32, scale: u32) -> (r: String)
    requires
        t.wf(),
        units(t, first_line(text@)) <= u32::MAX,
        text_width_spec(t, text@, scale) <= u32::MAX,
        text_width_spec(t, text@, scale) > max_width ==> units(t, dots()) <= u32::MAX
            && text_width_spec(t, dots(), scale) <= u32::MAX,
    ensures
        r@ == ellipsize_spec(t, text@, max_width, scale),
{
    let dots_str = "...";
    proof {
        reveal_strlit("...");
        assert(dots_str@ =~= dots());
        lemma_first_line_dots();
    }
    if text_width(t, text, scale) <= max_width {
        return text.to_owned();
    }
    let dw = text_width(t, dots_str, scale);
    if dw > max_width {
        return String::new();
    }
    let cs = chars_of(text);
    let mut k: usize = 0;
    while k < cs.len()
        invariant
            t.wf(),
            cs@ == text@,
            k <= cs@.len(),
            dw == text_width_spec(t, dots(), scale),
            units(t, first_line(text@)) <= u32::MAX,
            text_width_spec(t, text@, scale) <= u32::MAX,
            cut_point(t, text@, scale, max_width as int, 0) == cut_point(
                t,
                text@,
                scale,
                max_width as int,
                k as nat,
            ),
        ensures
            cut_point(t, text@, scale, max_width as int, 0) == k,
        decreases cs@.len() - k,
    {
        proof {
            lemma_prefix_width(t, cs@, k as int + 1);
            assert(cs@.take(k as int + 1).skip(0) =~= cs@.take(k as int + 1));
            assert(text_width_spec(t, cs@.take(k as int + 1), scale) <= text_width_spec(t, cs@, scale))
                by (nonlinear_arith)
                requires
                    units(t, first_line(cs@.take(k as int + 1))) <= units(t, first_line(cs@)),
            ;
        }
        let w = prefix_width(t, &cs, k + 1, scale);
        if (w as u64) + (TRACKING as u64) * (scale as u64) + (dw as u64) > max_width as u64 {
            break;
        }
        k = k + 1;
    }
    let mut out = String::from_str(text.substring_char(0, k));
    out.append(dots_str);
    proof {
        assert(text@.subrange(0, k as int) =~= text@.take(k as int));
    }
    out
}


/// The lines of `s`: the pieces between newlines, the empty ones included.
pub open spec fn lines(s: Seq<char>) -> Seq<Seq<char>>
    decreases s.len(),
{
    let n = first_line(s).len();
    if n < s.len() {
        seq![first_line(s)] + lines(s.skip(n + 1 as int))
    } else {
        seq![first_line(s)]
    }
}

/// Text without a newline is its own first line.
proof fn lemma_first_line_plain(s: Seq<char>)
    requires
        forall|i: int| 0 <= i < s.len() ==> s[i] != '\n',
    ensures
        first_line(s) == s,
    decreases s.len(),
{
    if s.len() > 0 {
        lemma_first_line_plain(s.skip(1));
        assert(first_line(s) =~= s);
    }
}

/// Widths add up across a join, with one tracking gap between.
proof fn lemma_units_concat(t: &GlyphTable, a: Seq<char>, b: Seq<char>)
    requires
        a.len() > 0,
        b.len() > 0,
    ensures
        units(t, a + b) == units(t, a) + TRACKING + units(t, b),
    decreases b.len(),
{
    let ab = a + b;
    if b.len() == 1 {
        assert(ab.drop_last() =~= a);
        assert(ab.last() == b[0]);
    } else {
        assert(ab.drop_last() =~= a + b.drop_last());
        assert(ab.last() == b.last());
        lemma_units_concat(t, a, b.drop_last());
    }
}

/// Two strings without newlines drawn back to back: the width of the whole
/// is the width of each plus one tracking column, since trailing tracking is
/// not counted.
pub proof fn lemma_text_width_concat(t: &GlyphTable, a: Seq<char>, b: Seq<char>, scale: u32)
    requires
        a.len() > 0,
        b.len() > 0,
        forall|i: int| 0 <= i < a.len() ==> a[i] != '\n',
        forall|i: int| 0 <= i < b.len() ==> b[i] != '\n',
    ensures
        text_width_spec(t, a + b, scale) == text_width_spec(t, a, scale) + TRACKING * scale
            + text_width_spec(t, b, scale),
{
    lemma_first_line_plain(a);
    lemma_first_line_plain(b);
    assert forall|i: int| 0 <= i < (a + b).len() implies (a + b)[i] != '\n' by {
        if i < a.len() {
            assert((a + b)[i] == a[i]);
        } else {
            assert((a + b)[i] == b[i - a.len()]);
        }
    }
    lemma_first_line_plain(a + b);
    lemma_units_concat(t, a, b);
    let x = units(t, a) as int;
    let y = units(t, b) as int;
    let c = scale as int;
    assert((x + 1 + y) * c == x * c + 1 * c + y * c) by (nonlinear_arith);
}

/// The block width is the width of the widest line: no line is wider, and
/// some line is exactly as wide.
pub proof fn lemma_block_is_widest_line(t: &GlyphTable, s: Seq<char>)
    ensures
        forall|i: int| 0 <= i < lines(s).len() ==> units(t, #[trigger] lines(s)[i]) <= block_units(t, s),
        exists|i: int| 0 <= i < lines(s).len() && units(t, #[trigger] lines(s)[i]) == block_units(t, s),
    decreases s.len(),
{
    lemma_first_line(s);
    let n = first_line(s).len();
    if n < s.len() {
        let rest = s.skip(n + 1 as int);
        lemma_block_is_widest_line(t, rest);
        let ls = lines(s);
        assert(ls == seq![first_line(s)] + lines(rest));
        assert forall|i: int| 0 <= i < ls.len() implies units(t, #[trigger] ls[i]) <= block_units(t, s) by {
            if i > 0 {
                assert(ls[i] == lines(rest)[i - 1]);
            }
        }
        if units(t, first_line(s)) >= block_units(t, rest) {
            assert(units(t, ls[0]) == block_units(t, s));
        } else {
            let j = choose|j: int| 0 <= j < lines(rest).len() && units(t, #[trigger] lines(rest)[j]) == block_units(t, rest);
            assert(ls[j + 1] == lines(rest)[j]);
            assert(units(t, ls[j + 1]) == block_units(t, s));
        }
    } else {
        assert(units(t, lines(s)[0]) == block_units(t, s));
    }
}

/// Text that already fits comes back from `ellipsize` unchanged.
pub proof fn lemma_ellipsize_keeps_fitting(t: &GlyphTable, s: Seq<char>, max_width: u32, scale: u32)
    requires
        text_width_spec(t, s, scale) <= max_width,
    ensures
        ellipsize_spec(t, s, max_width, scale) == s,
{
}

/// The width of the first `j` characters, one tracking column and the dots.
spec fn with_dots(t: &GlyphTable, s: Seq<char>, scale: u32, j: int) -> int {
    text_width_spec(t, s.take(j), scale) + TRACKING * scale + text_width_spec(t, dots(), scale)
}

/// The cut stops at the first prefix whose extension would not fit.
proof fn lemma_cut_point(t: &GlyphTable, s: Seq<char>, scale: u32, limit: int, k: nat)
    requires
        k <= s.len(),
    ensures
        k <= cut_point(t, s, scale, limit, k) <= s.len(),
        cut_point(t, s, scale, limit, k) < s.len() ==> with_dots(t, s, scale, cut_point(t, s, scale, limit, k) + 1int) > limit,
        forall|j: int| k < j <= cut_point(t, s, scale, limit, k) ==> #[trigger] with_dots(t, s, scale, j) <= limit,
    decreases s.len() - k,
{
    if k < s.len() && with_dots(t, s, scale, k + 1int) <= limit {
        lemma_cut_point(t, s, scale, limit, k + 1);
    }
}

/// A longer prefix of a line is no narrower.
proof fn lemma_with_dots_grows(t: &GlyphTable, s: Seq<char>, scale: u32, i: int, j: int)
    requires
        0 <= i <= j <= s.len(),
        forall|m: int| 0 <= m < s.len() ==> s[m] != '\n',
    ensures
        with_dots(t, s, scale, i) <= with_dots(t, s, scale, j),
{
    let a = s.take(i);
    let b = s.take(j);
    assert(b.take(i) =~= a);
    lemma_units_prefix(t, b, i);
    assert forall|m: int| 0 <= m < a.len() implies a[m] != '\n' by {
        assert(a[m] == s[m]);
    }
    assert forall|m: int| 0 <= m < b.len() implies b[m] != '\n' by {
        assert(b[m] == s[m]);
    }
    lemma_first_line_plain(a);
    lemma_first_line_plain(b);
    let x = units(t, a) as int;
    let y = units(t, b) as int;
    let c = scale as int;
    assert(x * c <= y * c) by (nonlinear_arith)
        requires
            x <= y,
            0 <= c,
    ;
}

/// Prefix and dots drawn together measure as `with_dots` says.
proof fn lemma_with_dots_joined(t: &GlyphTable, s: Seq<char>, scale: u32, j: int)
    requires
        0 < j <= s.len(),
        forall|m: int| 0 <= m < s.len() ==> s[m] != '\n',
    ensures
        text_width_spec(t, s.take(j) + dots(), scale) == with_dots(t, s, scale, j),
{
    let a = s.take(j);
    assert forall|m: int| 0 <= m < a.len() implies a[m] != '\n' by {
        assert(a[m] == s[m]);
    }
    lemma_text_width_concat(t, a, dots(), scale);
}

/// A line too wide for `max_width` is cut to the longest prefix that, with
/// the dots after it, still fits; the result fits and is shorter than the
/// line. Where even the dots do not fit, nothing is left.
pub proof fn lemma_ellipsize_longest_prefix(t: &GlyphTable, s: Seq<char>, max_width: u32, scale: u32)
    requires
        forall|m: int| 0 <= m < s.len() ==> s[m] != '\n',
        text_width_spec(t, s, scale) > max_width,
    ensures
        text_width_spec(t, dots(), scale) > max_width ==> ellipsize_spec(t, s, max_width, scale)
            == Seq::<char>::empty(),
        text_width_spec(t, dots(), scale) <= max_width ==> {
            let k = cut_point(t, s, scale, max_width as int, 0) as int;
            &&& k < s.len()
            &&& ellipsize_spec(t, s, max_width, scale) == s.take(k) + dots()
            &&& text_width_spec(t, s.take(k) + dots(), scale) <= max_width
            &&& forall|j: int|
                k < j <= s.len() ==> text_width_spec(t, #[trigger] s.take(j) + dots(), scale)
                    > max_width
        },
{
    if text_width_spec(t, dots(), scale) <= max_width {
        let limit = max_width as int;
        lemma_cut_point(t, s, scale, limit, 0);
        let k = cut_point(t, s, scale, limit, 0) as int;
        assert(s.take(s.len() as int) =~= s);
        assert(s.len() > 0) by {
            if s.len() == 0 {
                assert(first_line(s) =~= Seq::<char>::empty());
                let u = units(t, first_line(s)) as int;
                assert(u == 0);
                assert(u * scale == 0) by (nonlinear_arith)
                    requires
                        u == 0,
                ;
            }
        }
        assert(with_dots(t, s, scale, s.len() as int) > limit);
        if k == s.len() {
            assert(0 < k);
            assert(with_dots(t, s, scale, k) <= limit);
        }
        if k == 0 {
            assert(s.take(0) + dots() =~= dots());
        } else {
            lemma_with_dots_joined(t, s, scale, k);
        }
        assert forall|j: int| k < j <= s.len() implies text_width_spec(t, #[trigger] s.take(j) + dots(), scale)
            > max_width by {
            lemma_with_dots_grows(t, s, scale, k + 1, j);
            lemma_with_dots_joined(t, s, scale, j);
        }
    }
}

} // verus!
