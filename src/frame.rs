use crate::layout::line_spans_of;
use crate::model::Session;
use crate::session::Yesh;
use crate::text::{styled, Style, StyledUnit};
use vstd::prelude::*;

verus! {

/// One unit drawn at screen column `x`, row `y`.
#[derive(Clone, Copy, Debug, PartialEq, Eq)]
pub struct Cell {
    pub x: usize,
    pub y: usize,
    pub unit: StyledUnit,
}

/// A cell as the contracts speak of it.
pub struct Mark {
    pub x: nat,
    pub y: nat,
    pub unit: StyledUnit,
}

impl View for Cell {
    type V = Mark;

    open spec fn view(&self) -> Mark {
        Mark { x: self.x as nat, y: self.y as nat, unit: self.unit }
    }
}

/// What to draw on a cleared window, and where the hardware cursor goes.
pub struct Frame {
    pub cells: Vec<Cell>,
    pub cursor_x: usize,
    pub cursor_y: usize,
}

pub open spec fn mark_of(x: nat, y: nat, unit: StyledUnit) -> Mark {
    Mark { x, y, unit }
}

/// `units` drawn left to right from column `x0` on screen row `y`.
pub open spec fn marks(units: Seq<StyledUnit>, x0: nat, y: nat) -> Seq<Mark> {
    Seq::new(units.len(), |i: int| mark_of(x0 + i as nat, y, units[i]))
}

/// The cells as marks.
pub open spec fn marks_of(cells: Seq<Cell>) -> Seq<Mark> {
    cells.map_values(|c: Cell| c@)
}

impl Session {
    /// Whether absolute row `row` is in the window.
    pub open spec fn visible(self, row: nat) -> bool {
        row >= self.scroll && row - self.scroll < self.height
    }

    /// The cells of the first `n` line views that are in the window.
    pub open spec fn line_marks(self, n: nat) -> Seq<Mark>
        decreases n,
    {
        if n == 0 {
            Seq::empty()
        } else {
            let v = self.line_views()[n - 1];
            let here = if self.visible(v.span.row) {
                marks(
                    self.lines[v.index as int].subrange(
                        v.span.offset as int,
                        (v.span.offset + v.span.width) as int,
                    ),
                    0,
                    (v.span.row - self.scroll) as nat,
                )
            } else {
                Seq::empty()
            };
            self.line_marks((n - 1) as nat) + here
        }
    }

    /// The cells of the first `n` command views that are in the window, the first one
    /// right of the prompt.
    pub open spec fn command_marks(self, n: nat) -> Seq<Mark>
        decreases n,
    {
        if n == 0 {
            Seq::empty()
        } else {
            let v = self.command_views()[n - 1];
            let here = if self.visible(v.row) {
                marks(
                    styled(
                        self.command.subrange(v.offset as int, (v.offset + v.width) as int),
                        self.style,
                    ),
                    if n == 1 {
                        self.prompt.len()
                    } else {
                        0
                    },
                    (v.row - self.scroll) as nat,
                )
            } else {
                Seq::empty()
            };
            self.command_marks((n - 1) as nat) + here
        }
    }

    /// The prompt at the start of its row, if that row is in the window.
    pub open spec fn prompt_marks(self) -> Seq<Mark> {
        if self.visible(self.start()) {
            marks(styled(self.prompt, self.style), 0, (self.start() - self.scroll) as nat)
        } else {
            Seq::empty()
        }
    }

    /// Every cell in the window: the visible line views, then, while no child runs, the
    /// prompt and the visible command views.
    pub open spec fn frame(self) -> Seq<Mark> {
        self.line_marks(self.line_views().len()) + if self.running {
            Seq::empty()
        } else {
            self.prompt_marks() + self.command_marks(self.command_views().len())
        }
    }
}

/// `f` draws exactly the cells of `s` and puts the cursor where the cursor of `s` is.
pub open spec fn frame_shows(f: Frame, s: Session) -> bool {
    &&& marks_of(f.cells@) == s.frame()
    &&& f.cursor_x == s.x
    &&& f.cursor_y == s.y - s.scroll
}

/// Draws `count` units of `units` from `from` on, left to right from column `x0` on row `y`.
fn push_row(cells: &mut Vec<Cell>, units: &Vec<StyledUnit>, from: usize, count: usize, x0: usize, y: usize)
    requires
        from + count <= units@.len(),
        x0 + count <= usize::MAX,
    ensures
        marks_of(final(cells)@) == marks_of(old(cells)@) + marks(
            units@.subrange(from as int, (from + count) as int),
            x0 as nat,
            y as nat,
        ),
{
    let ghost start = marks_of(cells@);
    let ghost all = marks(units@.subrange(from as int, (from + count) as int), x0 as nat, y as nat);
    let total = units.len();
    let mut i: usize = 0;
    proof {
        assert(marks_of(cells@) =~= start + all.take(0));
    }
    while i < count
        invariant
            total == units@.len(),
            from + count <= units@.len(),
            x0 + count <= usize::MAX,
            i <= count,
            all == marks(units@.subrange(from as int, (from + count) as int), x0 as nat, y as nat),
            marks_of(cells@) == start + all.take(i as int),
        decreases count - i,
    {
        let cell = Cell { x: x0 + i, y, unit: units[from + i] };
        let ghost before = marks_of(cells@);
        cells.push(cell);
        proof {
            assert(all[i as int] == cell@);
            assert(marks_of(cells@) =~= before.push(cell@));
            assert(all.take(i + 1) =~= all.take(i as int).push(all[i as int]));
        }
        i = i + 1;
    }
    proof {
        assert(all.take(i as int) =~= all);
    }
}

/// Draws `count` characters of `chars` from `from` on in `style`, from column `x0` on row `y`.
fn push_styled_row(
    cells: &mut Vec<Cell>,
    chars: &Vec<char>,
    style: Style,
    from: usize,
    count: usize,
    x0: usize,
    y: usize,
)
    requires
        from + count <= chars@.len(),
        x0 + count <= usize::MAX,
    ensures
        marks_of(final(cells)@) == marks_of(old(cells)@) + marks(
            styled(chars@.subrange(from as int, (from + count) as int), style),
            x0 as nat,
            y as nat,
        ),
{
    let ghost start = marks_of(cells@);
    let ghost all = marks(
        styled(chars@.subrange(from as int, (from + count) as int), style),
        x0 as nat,
        y as nat,
    );
    let total = chars.len();
    let mut i: usize = 0;
    proof {
        assert(marks_of(cells@) =~= start + all.take(0));
    }
    while i < count
        invariant
            total == chars@.len(),
            from + count <= chars@.len(),
            x0 + count <= usize::MAX,
            i <= count,
            all == marks(
                styled(chars@.subrange(from as int, (from + count) as int), style),
                x0 as nat,
                y as nat,
            ),
            marks_of(cells@) == start + all.take(i as int),
        decreases count - i,
    {
        let cell = Cell { x: x0 + i, y, unit: StyledUnit { ch: chars[from + i], style } };
        let ghost before = marks_of(cells@);
        cells.push(cell);
        proof {
            assert(all[i as int] == cell@);
            assert(marks_of(cells@) =~= before.push(cell@));
            assert(all.take(i + 1) =~= all.take(i as int).push(all[i as int]));
        }
        i = i + 1;
    }
    proof {
        assert(all.take(i as int) =~= all);
    }
}

impl Yesh {
    /// What to draw: the line views and, while no child runs, the prompt and the command
    /// views, those in the window only; and the cursor relative to the window.
    pub fn render(&self) -> (f: Frame)
        requires
            self.wf(),
        ensures
            frame_shows(f, self@),
    {
        proof {
            self.lemma_views();
        }
        let ghost s = self@;
        let mut cells: Vec<Cell> = Vec::new();
        let mut k: usize = 0;
        proof {
            assert(marks_of(cells@) =~= s.line_marks(0));
        }
        while k < self.line_views.len()
            invariant
                self.wf(),
                s == self@,
                k <= self.line_views@.len(),
                marks_of(cells@) == s.line_marks(k as nat),
                forall|j: int|
                    0 <= j < self.line_views@.len() ==> #[trigger] self.line_views@[j].index
                        < self.lines@.len() && self.line_views@[j].segment.offset
                        + self.line_views@[j].segment.width <= self.lines@[self.line_views@[j].index as int]@.len(),
            decreases self.line_views@.len() - k,
        {
            let v = self.line_views[k];
            proof {
                assert(line_spans_of(self.line_views@)[k as int] == v@);
                assert(s.line_views()[k as int] == v@);
                assert(s.lines[v.index as int] == self.lines@[v.index as int]@);
            }
            if self.is_y_on_screen(v.segment.row) {
                push_row(
                    &mut cells,
                    &self.lines[v.index],
                    v.segment.offset,
                    v.segment.width,
                    0,
                    v.segment.row - self.scroll_offset,
                );
            }
            k = k + 1;
        }
        let ghost line_part = marks_of(cells@);
        if !self.running {
            let start = self.line_views.len();
            if self.is_y_on_screen(start) {
                push_styled_row(
                    &mut cells,
                    &self.prompt,
                    self.style,
                    0,
                    self.prompt.len(),
                    0,
                    start - self.scroll_offset,
                );
                proof {
                    assert(self.prompt@.subrange(0, self.prompt@.len() as int) =~= self.prompt@);
                }
            }
            let ghost prompt_part = marks_of(cells@);
            proof {
                assert(prompt_part =~= line_part + s.prompt_marks());
            }
            let mut n: usize = 0;
            proof {
                assert(marks_of(cells@) =~= line_part + s.prompt_marks() + s.command_marks(0));
            }
            while n < self.command_views.len()
                invariant
                    self.wf(),
                    s == self@,
                    !self.running,
                    n <= self.command_views@.len(),
                    marks_of(cells@) == line_part + s.prompt_marks() + s.command_marks(n as nat),
                    forall|j: int|
                        0 <= j < self.command_views@.len() ==> #[trigger] self.command_views@[j].offset
                            + self.command_views@[j].width <= self.command@.len(),
                    forall|j: int|
                        0 <= j < self.command_views@.len() ==> #[trigger] s.command_views()[j]
                            == self.command_views@[j]@,
                decreases self.command_views@.len() - n,
            {
                let v = self.command_views[n];
                proof {
                    assert(s.command_views()[n as int] == v@);
                }
                if self.is_y_on_screen(v.row) {
                    let x0 = if n == 0 {
                        self.prompt.len()
                    } else {
                        0
                    };
                    push_styled_row(
                        &mut cells,
                        &self.command,
                        self.style,
                        v.offset,
                        v.width,
                        x0,
                        v.row - self.scroll_offset,
                    );
                }
                n = n + 1;
                proof {
                    assert(line_part + s.prompt_marks() + s.command_marks(n as nat) =~= line_part
                        + s.prompt_marks() + s.command_marks((n - 1) as nat) + (s.command_marks(
                        n as nat,
                    ).subrange(s.command_marks((n - 1) as nat).len() as int, s.command_marks(
                        n as nat,
                    ).len() as int)));
                }
            }
            proof {
                assert(marks_of(cells@) =~= s.frame());
            }
        } else {
            proof {
                assert(marks_of(cells@) =~= s.frame());
            }
        }
        Frame { cells, cursor_x: self.cursor_x, cursor_y: self.cursor_y - self.scroll_offset }
    }
}

} // verus!
