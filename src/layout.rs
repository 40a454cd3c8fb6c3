use vstd::arithmetic::div_mod::{lemma_fundamental_div_mod, lemma_mod_pos_bound};
use vstd::prelude::*;

verus! {

/// One screen row's worth of a buffer: `width` units starting at `offset`, drawn at `row`.
pub struct Span {
    pub row: nat,
    pub width: nat,
    pub offset: nat,
}

/// A span of one scrollback line, with the line's position in the scrollback.
pub struct LineSpan {
    pub index: nat,
    pub span: Span,
}

/// A slice `[offset, offset + width)` of a buffer drawn at absolute screen row `row`.
#[derive(Clone, Copy, Debug, PartialEq, Eq)]
pub struct Segment {
    pub row: usize,
    pub width: usize,
    pub offset: usize,
}

impl View for Segment {
    type V = Span;

    open spec fn view(&self) -> Span {
        Span { row: self.row as nat, width: self.width as nat, offset: self.offset as nat }
    }
}

/// A segment of the scrollback line at `index`.
#[derive(Clone, Copy, Debug, PartialEq, Eq)]
pub struct LineView {
    pub index: usize,
    pub segment: Segment,
}

impl View for LineView {
    type V = LineSpan;

    open spec fn view(&self) -> LineSpan {
        LineSpan { index: self.index as nat, span: self.segment@ }
    }
}

/// The smaller of `a` and `b`.
pub open spec fn min_nat(a: nat, b: nat) -> nat {
    if a <= b {
        a
    } else {
        b
    }
}

/// The spans that wrap `len` units starting at `offset`: the first row holds at most
/// `first` units, every later row at most `width`; one span per row, from `row` down.
/// Nothing is left over and nothing is empty, except a first row with no room at all.
pub open spec fn wrap(len: nat, first: nat, width: nat, row: nat, offset: nat) -> Seq<Span>
    decreases len + (if first == 0 { 1nat } else { 0nat }),
    when width > 0
{
    if len == 0 {
        Seq::empty()
    } else {
        let w = min_nat(len, first);
        seq![Span { row, width: w, offset }] + wrap(
            (len - w) as nat,
            width,
            width,
            row + 1,
            offset + w,
        )
    }
}

/// The spans of a list of segments.
pub open spec fn spans_of(v: Seq<Segment>) -> Seq<Span> {
    v.map_values(|s: Segment| s@)
}

/// The spans of a list of line views.
pub open spec fn line_spans_of(v: Seq<LineView>) -> Seq<LineSpan> {
    v.map_values(|s: LineView| s@)
}

/// The spans `s` marked as belonging to the line at `index`.
pub open spec fn tag(s: Seq<Span>, index: nat) -> Seq<LineSpan> {
    s.map_values(|sp: Span| LineSpan { index, span: sp })
}

/// The line views of a scrollback whose lines have the lengths `lens`, wrapped at `width`:
/// each line's spans in turn, the rows counting up from zero.
pub open spec fn line_layout(lens: Seq<nat>, width: nat) -> Seq<LineSpan>
    decreases lens.len(),
{
    if lens.len() == 0 {
        Seq::empty()
    } else {
        let before = line_layout(lens.drop_last(), width);
        before + tag(wrap(lens.last(), width, width, before.len(), 0), (lens.len() - 1) as nat)
    }
}

/// Room for the command on the prompt's row.
pub open spec fn first_room(prompt: nat, width: nat) -> nat {
    if width > prompt {
        (width - prompt) as nat
    } else {
        0
    }
}

/// The command views of a command of `len` units behind a prompt `prompt` wide.
pub open spec fn command_layout(len: nat, prompt: nat, width: nat, start: nat) -> Seq<Span> {
    wrap(len, first_room(prompt, width), width, start, 0)
}

/// The widths of the spans added up.
pub open spec fn total_width(s: Seq<Span>) -> nat
    decreases s.len(),
{
    if s.len() == 0 {
        0
    } else {
        total_width(s.drop_last()) + s.last().width
    }
}

/// The pieces of `line` that the spans cut out, one after another.
pub open spec fn join_slices<T>(line: Seq<T>, s: Seq<Span>) -> Seq<T>
    decreases s.len(),
{
    if s.len() == 0 {
        Seq::empty()
    } else {
        join_slices(line, s.drop_last()) + line.subrange(
            s.last().offset as int,
            (s.last().offset + s.last().width) as int,
        )
    }
}

/// The offset under the cursor `(x, y)` among command views `views` of a command of `len`
/// units that starts on row `start` behind a prompt `prompt` wide: none on the rows above
/// and on the prompt itself; the end of the command on a row past the last view.
pub open spec fn offset_under(views: Seq<Span>, len: nat, prompt: nat, start: nat, x: nat, y: nat) -> Option<nat> {
    if y < start {
        None
    } else if y - start < views.len() {
        let k = (y - start) as nat;
        if k == 0 && x < prompt {
            None
        } else {
            let column = if k == 0 {
                (x - prompt) as nat
            } else {
                x
            };
            Some(min_nat(views[k as int].offset + column, len))
        }
    } else if y == start && x < prompt {
        None
    } else {
        Some(len)
    }
}

/// Where offset `i` of the command stands on screen, as `(column, row)`.
pub open spec fn position_of(i: nat, prompt: nat, width: nat, start: nat) -> (nat, nat)
    recommends
        width > 0,
{
    let room = first_room(prompt, width);
    if i < room {
        (prompt + i, start)
    } else {
        let j = (i - room) as nat;
        ((j % width) as nat, start + 1 + (j / width) as nat)
    }
}

proof fn lemma_wrap_unfold(len: nat, first: nat, width: nat, row: nat, offset: nat)
    requires
        width > 0,
        len > 0,
    ensures
        wrap(len, first, width, row, offset) == seq![
            Span { row, width: min_nat(len, first), offset },
        ] + wrap(
            (len - min_nat(len, first)) as nat,
            width,
            width,
            row + 1,
            offset + min_nat(len, first),
        ),
{
}

/// The shape of a wrap: the rows count up, the first span starts at `offset`, every later
/// one right after the previous one's room, and the last one ends at `offset + len`.
pub proof fn lemma_wrap_shape(len: nat, first: nat, width: nat, row: nat, offset: nat)
    requires
        width > 0,
    ensures
        ({
            let s = wrap(len, first, width, row, offset);
            &&& (s.len() == 0 <==> len == 0)
            &&& s.len() <= len + 1
            &&& (first > 0 ==> s.len() <= len)
            &&& forall|k: int| 0 <= k < s.len() ==> #[trigger] s[k].row == row + k
            &&& forall|k: int|
                0 <= k < s.len() ==> #[trigger] s[k].offset == if k == 0 {
                    offset as int
                } else {
                    offset + first + (k - 1) * width
                }
            &&& forall|k: int|
                0 <= k < s.len() ==> #[trigger] s[k].width <= if k == 0 {
                    first
                } else {
                    width
                }
            &&& forall|k: int| 0 < k < s.len() ==> #[trigger] s[k].width > 0
            &&& (first > 0 ==> forall|k: int| 0 <= k < s.len() ==> #[trigger] s[k].width > 0)
            &&& (s.len() > 0 ==> s.last().offset + s.last().width == offset + len)
            &&& forall|k: int|
                0 <= k < s.len() ==> offset <= #[trigger] s[k].offset && s[k].offset + s[k].width
                    <= offset + len
        }),
    decreases len + (if first == 0 { 1nat } else { 0nat }),
{
    if len > 0 {
        let w = min_nat(len, first);
        let rest = (len - w) as nat;
        lemma_wrap_shape(rest, width, width, row + 1, offset + w);
        let s = wrap(len, first, width, row, offset);
        let t = wrap(rest, width, width, row + 1, offset + w);
        lemma_wrap_unfold(len, first, width, row, offset);
        assert(s.len() == t.len() + 1);
        if t.len() > 0 {
            assert(w == first) by {
                if w < first {
                    assert(rest == 0);
                }
            }
        }
        assert forall|k: int| 0 < k < s.len() implies #[trigger] s[k].offset == offset + first + (k
            - 1) * width by {
            assert(s[k] == t[k - 1]);
            let o = t[k - 1].offset;
            if k == 1 {
                assert(o == offset + w);
            } else {
                assert(o == offset + w + width + (k - 2) * width);
                assert(offset + w + width + (k - 2) * width == offset + first + (k - 1) * width)
                    by (nonlinear_arith)
                    requires
                        w == first,
                ;
            }
        }
        assert forall|k: int| 0 <= k < s.len() implies #[trigger] s[k].row == row + k && offset
            <= s[k].offset && s[k].offset + s[k].width <= offset + len by {
            if k > 0 {
                assert(s[k] == t[k - 1]);
            }
        }
        assert forall|k: int| 0 < k < s.len() implies #[trigger] s[k].width > 0 && s[k].width
            <= width by {
            assert(s[k] == t[k - 1]);
        }
        if t.len() > 0 {
            assert(s.last() == t.last());
        }
    }
}

/// The widths of a wrap add up to what was wrapped.
proof fn lemma_wrap_total(len: nat, first: nat, width: nat, row: nat, offset: nat)
    requires
        width > 0,
    ensures
        total_width(wrap(len, first, width, row, offset)) == len,
    decreases len + (if first == 0 { 1nat } else { 0nat }),
{
    if len > 0 {
        let w = min_nat(len, first);
        let rest = (len - w) as nat;
        lemma_wrap_unfold(len, first, width, row, offset);
        lemma_wrap_total(rest, width, width, row + 1, offset + w);
        lemma_total_prepend(
            Span { row, width: w, offset },
            wrap(rest, width, width, row + 1, offset + w),
        );
    }
}

proof fn lemma_total_prepend(h: Span, t: Seq<Span>)
    ensures
        total_width(seq![h] + t) == h.width + total_width(t),
    decreases t.len(),
{
    let s = seq![h] + t;
    if t.len() > 0 {
        assert(s.drop_last() =~= seq![h] + t.drop_last());
        lemma_total_prepend(h, t.drop_last());
        assert(s.last() == t.last());
        assert(total_width(s) == total_width(s.drop_last()) + s.last().width);
        assert(total_width(t) == total_width(t.drop_last()) + t.last().width);
    } else {
        assert(s.drop_last() =~= Seq::<Span>::empty());
        assert(s.last() == h);
        assert(total_width(s) == total_width(s.drop_last()) + s.last().width);
        assert(total_width(s.drop_last()) == 0);
    }
}

proof fn lemma_join_prepend<T>(line: Seq<T>, h: Span, t: Seq<Span>)
    ensures
        join_slices(line, seq![h] + t) == line.subrange(h.offset as int, (h.offset + h.width) as int)
            + join_slices(line, t),
    decreases t.len(),
{
    let s = seq![h] + t;
    if t.len() > 0 {
        assert(s.drop_last() =~= seq![h] + t.drop_last());
        lemma_join_prepend(line, h, t.drop_last());
        assert(s.last() == t.last());
    } else {
        assert(s.drop_last() =~= Seq::<Span>::empty());
        assert(join_slices(line, Seq::<Span>::empty()) =~= Seq::<T>::empty());
    }
}

/// The slices that a wrap cuts out of a line give back the wrapped part of the line.
proof fn lemma_wrap_join<T>(line: Seq<T>, len: nat, first: nat, width: nat, row: nat, offset: nat)
    requires
        width > 0,
        offset + len <= line.len(),
    ensures
        join_slices(line, wrap(len, first, width, row, offset)) == line.subrange(
            offset as int,
            (offset + len) as int,
        ),
    decreases len + (if first == 0 { 1nat } else { 0nat }),
{
    if len == 0 {
        assert(line.subrange(offset as int, offset as int) =~= Seq::<T>::empty());
    } else {
        let w = min_nat(len, first);
        let rest = (len - w) as nat;
        lemma_wrap_unfold(len, first, width, row, offset);
        lemma_wrap_join(line, rest, width, width, row + 1, offset + w);
        lemma_join_prepend(
            line,
            Span { row, width: w, offset },
            wrap(rest, width, width, row + 1, offset + w),
        );
        assert(line.subrange(offset as int, (offset + w) as int) + line.subrange(
            (offset + w) as int,
            (offset + len) as int,
        ) =~= line.subrange(offset as int, (offset + len) as int));
    }
}

/// Wrapping a line at any positive width tiles it: the views lie on consecutive rows, each
/// starts where the one before it ends, none is empty or wider than the window, their
/// widths add up to the line's length, and the slices they cut out of the line, put back
/// together, give the line.
pub proof fn lemma_line_wrap_tiles<T>(line: Seq<T>, width: nat, row: nat)
    requires
        width > 0,
    ensures
        ({
            let s = wrap(line.len(), width, width, row, 0);
            &&& total_width(s) == line.len()
            &&& forall|k: int| 0 <= k < s.len() ==> #[trigger] s[k].row == row + k
            &&& forall|k: int| 0 <= k < s.len() ==> 0 < #[trigger] s[k].width <= width
            &&& (s.len() > 0 ==> s[0].offset == 0)
            &&& forall|k: int|
                0 <= k < s.len() - 1 ==> #[trigger] s[k + 1].offset == s[k].offset + s[k].width
            &&& join_slices(line, s) == line
        }),
{
    let s = wrap(line.len(), width, width, row, 0);
    lemma_wrap_shape(line.len(), width, width, row, 0);
    lemma_wrap_total(line.len(), width, width, row, 0);
    lemma_wrap_join(line, line.len(), width, width, row, 0);
    assert(line.subrange(0, line.len() as int) =~= line);
    assert forall|k: int| 0 <= k < s.len() - 1 implies #[trigger] s[k + 1].offset == s[k].offset
        + s[k].width by {
        if k + 1 < s.len() - 1 || k + 1 == s.len() - 1 {
            lemma_wrap_successor(line.len(), width, row, k);
        }
    }
}

proof fn lemma_wrap_successor(len: nat, width: nat, row: nat, k: int)
    requires
        width > 0,
        0 <= k < wrap(len, width, width, row, 0).len() - 1,
    ensures
        wrap(len, width, width, row, 0)[k + 1].offset == wrap(len, width, width, row, 0)[k].offset
            + wrap(len, width, width, row, 0)[k].width,
{
    let s = wrap(len, width, width, row, 0);
    lemma_wrap_shape(len, width, width, row, 0);
    assert(s[k].width == width) by {
        lemma_wrap_widths_full(len, width, width, row, 0, k);
    }
    assert(s[k + 1].offset == s[k].offset + width) by {
        if k == 0 {
            assert(s[1].offset == 0 + width + (1 - 1) * width);
        } else {
            assert(s[k].offset == width + (k - 1) * width);
            assert(s[k + 1].offset == width + k * width);
            assert(width + k * width == width + (k - 1) * width + width) by (nonlinear_arith);
        }
    }
}

/// Every span of a wrap but the last fills its row.
proof fn lemma_wrap_widths_full(len: nat, first: nat, width: nat, row: nat, offset: nat, k: int)
    requires
        width > 0,
        0 <= k < wrap(len, first, width, row, offset).len() - 1,
    ensures
        wrap(len, first, width, row, offset)[k].width == if k == 0 {
            first
        } else {
            width
        },
    decreases len + (if first == 0 { 1nat } else { 0nat }),
{
    let w = min_nat(len, first);
    let rest = (len - w) as nat;
    lemma_wrap_unfold(len, first, width, row, offset);
    let t = wrap(rest, width, width, row + 1, offset + w);
    if k == 0 {
        assert(t.len() > 0);
        assert(rest > 0);
    } else {
        lemma_wrap_widths_full(rest, width, width, row + 1, offset + w, k - 1);
    }
}

/// Placing the cursor where any offset of the command stands on screen, and reading the
/// offset back from under the cursor, gives that offset, whenever the window is wider than
/// the prompt.
pub proof fn lemma_cursor_round_trip(len: nat, prompt: nat, width: nat, start: nat, i: nat)
    requires
        width > prompt,
        i <= len,
    ensures
        ({
            let (x, y) = position_of(i, prompt, width, start);
            offset_under(command_layout(len, prompt, width, start), len, prompt, start, x, y)
                == Some(i)
        }),
{
    let room = first_room(prompt, width);
    let s = command_layout(len, prompt, width, start);
    lemma_wrap_shape(len, room, width, start, 0);
    let (x, y) = position_of(i, prompt, width, start);
    if i < room {
        if len > 0 {
            assert(s[0].offset == 0);
        }
    } else {
        let j = (i - room) as nat;
        let q = j / width;
        lemma_fundamental_div_mod(j as int, width as int);
        lemma_mod_pos_bound(j as int, width as int);
        assert(q * width <= j) by (nonlinear_arith)
            requires
                j == width * q + j % width,
                j % width >= 0,
        ;
        assert(y - start == 1 + q);
        if 1 + q < s.len() {
            let k = (1 + q) as int;
            assert(s[k].offset == room + q * width);
        } else {
            assert(len > 0);
            let n = s.len();
            assert(s.last().offset + s.last().width == len);
            if n == 1 {
                assert(s[0].width <= room);
            } else {
                assert(s[n - 1].offset == room + (n - 2) * width);
                assert(s[n - 1].width <= width);
                assert(room + (n - 2) * width + width <= room + q * width) by (nonlinear_arith)
                    requires
                        n <= 1 + q,
                        n >= 2,
                        width > 0,
                ;
            }
        }
    }
}

/// The length of each line.
pub open spec fn lens_of<T>(lines: Seq<Vec<T>>) -> Seq<nat> {
    lines.map_values(|l: Vec<T>| l@.len())
}

/// How many units the lines of lengths `lens` hold together.
pub open spec fn sum(lens: Seq<nat>) -> nat
    decreases lens.len(),
{
    if lens.len() == 0 {
        0
    } else {
        sum(lens.drop_last()) + lens.last()
    }
}

proof fn lemma_sum_prefix(lens: Seq<nat>, i: int)
    requires
        0 <= i <= lens.len(),
    ensures
        sum(lens.take(i)) <= sum(lens),
    decreases lens.len(),
{
    if i < lens.len() {
        assert(lens.drop_last().take(i) =~= lens.take(i));
        lemma_sum_prefix(lens.drop_last(), i);
    } else {
        assert(lens.take(i) =~= lens);
    }
}

/// Where the line views of a scrollback stand: view `k` on row `k`, inside the line it
/// belongs to; there are no more views than units.
pub proof fn lemma_line_layout_bounds(lens: Seq<nat>, width: nat)
    requires
        width > 0,
    ensures
        ({
            let l = line_layout(lens, width);
            &&& l.len() <= sum(lens)
            &&& forall|k: int|
                0 <= k < l.len() ==> #[trigger] l[k].index < lens.len() && l[k].span.row == k
                    && l[k].span.offset + l[k].span.width <= lens[l[k].index as int]
        }),
    decreases lens.len(),
{
    if lens.len() > 0 {
        let rest = lens.drop_last();
        lemma_line_layout_bounds(rest, width);
        let before = line_layout(rest, width);
        let w = wrap(lens.last(), width, width, before.len(), 0);
        lemma_wrap_shape(lens.last(), width, width, before.len(), 0);
        let l = line_layout(lens, width);
        assert forall|k: int| 0 <= k < l.len() implies #[trigger] l[k].index < lens.len()
            && l[k].span.row == k && l[k].span.offset + l[k].span.width <= lens[l[k].index as int] by {
            if k < before.len() {
                assert(l[k] == before[k]);
                assert(lens[l[k].index as int] == rest[l[k].index as int]);
            } else {
                assert(l[k] == LineSpan { index: (lens.len() - 1) as nat, span: w[k - before.len()] });
            }
        }
    }
}

/// Wraps `len` units into segments, the first row holding at most `first` units and every
/// later row at most `width`, the rows counting up from `row`.
pub fn wrap_segments(len: usize, first: usize, width: usize, row: usize) -> (r: Vec<Segment>)
    requires
        width > 0,
        row + len + 1 <= usize::MAX,
    ensures
        spans_of(r@) == wrap(len as nat, first as nat, width as nat, row as nat, 0),
{
    let mut out: Vec<Segment> = Vec::new();
    let mut remaining: usize = len;
    let mut offset: usize = 0;
    let mut room: usize = first;
    let mut r: usize = row;
    proof {
        assert(spans_of(out@) =~= Seq::<Span>::empty());
        assert(spans_of(out@) + wrap(len as nat, first as nat, width as nat, row as nat, 0)
            =~= wrap(len as nat, first as nat, width as nat, row as nat, 0));
    }
    while remaining > 0
        invariant
            width > 0,
            row + len + 1 <= usize::MAX,
            offset + remaining == len,
            spans_of(out@) + wrap(remaining as nat, room as nat, width as nat, r as nat, offset as nat)
                == wrap(len as nat, first as nat, width as nat, row as nat, 0),
            r == row + out.len(),
            out.len() <= offset + 1,
            out.len() == 0 ==> room == first,
            out.len() > 0 ==> room == width,
        decreases remaining + (if room == 0 { 1int } else { 0int }),
    {
        let w: usize = if remaining <= room {
            remaining
        } else {
            room
        };
        let seg = Segment { row: r, width: w, offset };
        let ghost before = spans_of(out@);
        out.push(seg);
        proof {
            lemma_wrap_unfold(remaining as nat, room as nat, width as nat, r as nat, offset as nat);
            assert(spans_of(out@) =~= before.push(seg@));
            assert(spans_of(out@) + wrap((remaining - w) as nat, width as nat, width as nat, (r
                + 1) as nat, (offset + w) as nat) =~= before + wrap(
                remaining as nat,
                room as nat,
                width as nat,
                r as nat,
                offset as nat,
            ));
        }
        remaining = remaining - w;
        offset = offset + w;
        r = r + 1;
        room = width;
    }
    proof {
        assert(spans_of(out@) =~= spans_of(out@) + wrap(
            remaining as nat,
            room as nat,
            width as nat,
            r as nat,
            offset as nat,
        ));
    }
    out
}

/// Builds the line views of the scrollback `lines` at window width `width`.
pub fn rebuild_line_views<T>(lines: &Vec<Vec<T>>, width: usize) -> (r: Vec<LineView>)
    requires
        width > 0,
        sum(lens_of(lines@)) + 1 <= usize::MAX,
    ensures
        line_spans_of(r@) == line_layout(lens_of(lines@), width as nat),
        r@.len() <= sum(lens_of(lines@)),
{
    let ghost lens = lens_of(lines@);
    let mut out: Vec<LineView> = Vec::new();
    let mut i: usize = 0;
    proof {
        assert(lens.take(0) =~= Seq::<nat>::empty());
        assert(line_spans_of(out@) =~= Seq::<LineSpan>::empty());
    }
    while i < lines.len()
        invariant
            width > 0,
            lens == lens_of(lines@),
            sum(lens) + 1 <= usize::MAX,
            i <= lines.len(),
            line_spans_of(out@) == line_layout(lens.take(i as int), width as nat),
            out.len() <= sum(lens.take(i as int)),
        decreases lines.len() - i,
    {
        let len = lines[i].len();
        proof {
            assert(lens.take(i + 1).drop_last() =~= lens.take(i as int));
            assert(lens.take(i + 1).last() == len);
            lemma_sum_prefix(lens, i + 1);
        }
        let segs = wrap_segments(len, width, width, out.len());
        proof {
            lemma_wrap_shape(len as nat, width as nat, width as nat, out.len() as nat, 0);
        }
        let ghost before = line_spans_of(out@);
        let ghost all = tag(spans_of(segs@), i as nat);
        let mut k: usize = 0;
        proof {
            assert(line_spans_of(out@) =~= before + all.take(0));
        }
        while k < segs.len()
            invariant
                k <= segs.len(),
                all == tag(spans_of(segs@), i as nat),
                line_spans_of(out@) == before + all.take(k as int),
                out.len() == before.len() + k,
            decreases segs.len() - k,
        {
            let view = LineView { index: i, segment: segs[k] };
            let ghost old_spans = line_spans_of(out@);
            out.push(view);
            proof {
                assert(all[k as int] == view@);
                assert(line_spans_of(out@) =~= old_spans.push(view@));
                assert(all.take(k + 1) =~= all.take(k as int).push(view@));
                assert(line_spans_of(out@) =~= before + all.take(k + 1));
            }
            k = k + 1;
        }
        proof {
            assert(all.take(k as int) =~= all);
        }
        i = i + 1;
    }
    proof {
        assert(lens.take(i as int) =~= lens);
    }
    out
}

/// Builds the command views of a command of `len` units behind a prompt `prompt` wide, at
/// window width `width`, the first view on row `start`.
pub fn rebuild_command_views(len: usize, prompt: usize, width: usize, start: usize) -> (r: Vec<
    Segment,
>)
    requires
        width > 0,
        start + len + 1 <= usize::MAX,
    ensures
        spans_of(r@) == command_layout(len as nat, prompt as nat, width as nat, start as nat),
{
    let room: usize = if width > prompt {
        width - prompt
    } else {
        0
    };
    wrap_segments(len, room, width, start)
}

/// Each span of a wrap takes what is left of the wrapped units, up to the room of its row.
pub proof fn lemma_wrap_widths_exact(len: nat, first: nat, width: nat, row: nat, offset: nat, k: int)
    requires
        width > 0,
        0 <= k < wrap(len, first, width, row, offset).len(),
    ensures
        wrap(len, first, width, row, offset)[k].width == min_nat(
            (offset + len - wrap(len, first, width, row, offset)[k].offset) as nat,
            if k == 0 {
                first
            } else {
                width
            },
        ),
    decreases len + (if first == 0 { 1nat } else { 0nat }),
{
    let w = min_nat(len, first);
    let rest = (len - w) as nat;
    lemma_wrap_unfold(len, first, width, row, offset);
    if k > 0 {
        lemma_wrap_widths_exact(rest, width, width, row + 1, offset + w, k - 1);
    }
}


/// The views of line `i` in a scrollback layout: one run starting right after the views of
/// the lines before it, exactly that line's wrap, with only earlier lines before it and only
/// later lines after it.
proof fn lemma_line_run(lens: Seq<nat>, width: nat, i: int)
    requires
        width > 0,
        0 <= i < lens.len(),
    ensures
        ({
            let l = line_layout(lens, width);
            let a = line_layout(lens.take(i), width).len();
            let s = wrap(lens[i], width, width, a, 0);
            &&& a + s.len() <= l.len()
            &&& l.subrange(a as int, (a + s.len()) as int) == tag(s, i as nat)
            &&& forall|k: int| 0 <= k < a ==> #[trigger] l[k].index < i
            &&& forall|k: int| a + s.len() <= k < l.len() ==> #[trigger] l[k].index > i
        }),
    decreases lens.len(),
{
    let l = line_layout(lens, width);
    let rest = lens.drop_last();
    let before = line_layout(rest, width);
    lemma_line_layout_bounds(rest, width);
    let last = tag(wrap(lens.last(), width, width, before.len(), 0), (lens.len() - 1) as nat);
    assert(l == before + last);
    if i == lens.len() - 1 {
        assert(lens.take(i) =~= rest);
        assert(l.subrange(before.len() as int, l.len() as int) =~= last);
        assert forall|k: int| 0 <= k < before.len() implies #[trigger] l[k].index < i by {
            assert(l[k] == before[k]);
        }
    } else {
        lemma_line_run(rest, width, i);
        assert(rest.take(i) =~= lens.take(i));
        assert(rest[i] == lens[i]);
        let a = line_layout(lens.take(i), width).len();
        let s = wrap(lens[i], width, width, a, 0);
        assert(l.subrange(a as int, (a + s.len()) as int) =~= before.subrange(a as int, (a + s.len()) as int));
        assert forall|k: int| 0 <= k < a implies #[trigger] l[k].index < i by {
            assert(l[k] == before[k]);
        }
        assert forall|k: int| a + s.len() <= k < l.len() implies #[trigger] l[k].index > i by {
            if k < before.len() {
                assert(l[k] == before[k]);
            } else {
                assert(l[k] == last[k - before.len()]);
            }
        }
    }
}

/// Wrapping a whole scrollback at any positive width tiles every line: the views of line
/// `i` form one run of consecutive rows, after the views of every earlier line and before
/// those of every later one; within the run each view starts where the one before it ends,
/// none is empty or wider than the window, their widths add up to the line's length, and
/// the slices they cut out of the line, put back together, give the line.
pub proof fn lemma_scrollback_tiles<T>(lines: Seq<Seq<T>>, width: nat, i: int)
    requires
        width > 0,
        0 <= i < lines.len(),
    ensures
        ({
            let lens = lines.map_values(|l: Seq<T>| l.len());
            let l = line_layout(lens, width);
            let a = line_layout(lens.take(i), width).len();
            let s = wrap(lines[i].len(), width, width, a, 0);
            &&& a + s.len() <= l.len()
            &&& l.subrange(a as int, (a + s.len()) as int) == tag(s, i as nat)
            &&& forall|k: int| 0 <= k < a ==> #[trigger] l[k].index < i
            &&& forall|k: int| a + s.len() <= k < l.len() ==> #[trigger] l[k].index > i
            &&& total_width(s) == lines[i].len()
            &&& forall|k: int| 0 <= k < s.len() ==> #[trigger] s[k].row == a + k
            &&& forall|k: int| 0 <= k < s.len() ==> 0 < #[trigger] s[k].width <= width
            &&& (s.len() > 0 ==> s[0].offset == 0)
            &&& forall|k: int|
                0 <= k < s.len() - 1 ==> #[trigger] s[k + 1].offset == s[k].offset + s[k].width
            &&& join_slices(lines[i], s) == lines[i]
        }),
{
    let lens = lines.map_values(|l: Seq<T>| l.len());
    lemma_line_run(lens, width, i);
    let a = line_layout(lens.take(i), width).len();
    lemma_line_wrap_tiles(lines[i], width, a);
}

} // verus!
