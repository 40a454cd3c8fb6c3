use crate::frame::{frame_shows, Frame};
use crate::layout::{
    first_room, lemma_line_layout_bounds, lemma_wrap_shape, lens_of, line_spans_of, min_nat,
    position_of, rebuild_command_views, rebuild_line_views, spans_of, sum, LineView, Segment,
};
use crate::model::{at_least_one, ChildReport, Input, Key, Session, INFO, LAUNCH_ERROR, PROMPT};
use crate::text::{
    ascii_code, chars_of, control_code, is_control, parse_command, seqs_of, split_lines, styled,
    Style, StyledUnit,
};
use vstd::prelude::*;

verus! {

/// The shell session: scrollback, command being typed, their views, cursor, scroll and the
/// state of the child process.
pub struct Yesh {
    pub columns: usize,
    pub rows: usize,
    pub style: Style,
    pub prompt: Vec<char>,
    pub command: Vec<char>,
    pub command_views: Vec<Segment>,
    pub lines: Vec<Vec<StyledUnit>>,
    pub line_views: Vec<LineView>,
    pub units: usize,
    pub cursor_x: usize,
    pub cursor_y: usize,
    pub scroll_offset: usize,
    pub should_exit: bool,
    pub running: bool,
    pub pending: Vec<char>,
    pub launch: Option<Launch>,
}

/// A command to start: the program and its arguments.
pub struct Launch {
    pub program: Vec<char>,
    pub args: Vec<Vec<char>>,
}

impl View for Launch {
    type V = (Seq<char>, Seq<Seq<char>>);

    open spec fn view(&self) -> (Seq<char>, Seq<Seq<char>>) {
        (self.program@, self.args@.map_values(|a: Vec<char>| a@))
    }
}

impl View for Yesh {
    type V = Session;

    open spec fn view(&self) -> Session {
        Session {
            columns: self.columns as nat,
            height: self.rows as nat,
            style: self.style,
            prompt: self.prompt@,
            command: self.command@,
            lines: self.lines@.map_values(|l: Vec<StyledUnit>| l@),
            x: self.cursor_x as nat,
            y: self.cursor_y as nat,
            scroll: self.scroll_offset as nat,
            exit: self.should_exit,
            running: self.running,
            pending: self.pending@,
            launch: match self.launch {
                Some(l) => Some(l@),
                None => None,
            },
        }
    }
}

impl Yesh {
    /// The counts that every state keeps: a window of at least one cell, the tally of the
    /// scrollback's units, room for every row and offset, and an empty command while a
    /// child runs.
    pub open spec fn counts_ok(&self) -> bool {
        &&& self.columns >= 1
        &&& self.rows >= 1
        &&& self.units == sum(self@.lens())
        &&& self@.fits(0)
        &&& (self.running ==> self.command@.len() == 0)
        &&& (self.launch.is_some() ==> self.running)
    }

    /// The views are those of the current scrollback, command and width.
    pub open spec fn layout_ok(&self) -> bool {
        &&& self.counts_ok()
        &&& line_spans_of(self.line_views@) == self@.line_views()
        &&& spans_of(self.command_views@) == self@.command_views()
        &&& self.line_views@.len() <= self.units
    }

    /// The layout is current and the cursor's row is in view.
    pub open spec fn settled(&self) -> bool {
        &&& self.layout_ok()
        &&& self.scroll_offset <= self.cursor_y
    }

    /// Well formed: the layout is current and the cursor stands inside the window.
    pub open spec fn wf(&self) -> bool {
        &&& self.layout_ok()
        &&& self.cursor_x < self.columns
        &&& self.scroll_offset <= self.cursor_y < self.scroll_offset + self.rows
    }

    /// Everything but the scrollback, its tally and the views is as in `other`.
    pub open spec fn keeps_all_but_lines(&self, other: &Yesh) -> bool {
        &&& self.columns == other.columns
        &&& self.rows == other.rows
        &&& self.style == other.style
        &&& self.prompt == other.prompt
        &&& self.command == other.command
        &&& self.cursor_x == other.cursor_x
        &&& self.cursor_y == other.cursor_y
        &&& self.scroll_offset == other.scroll_offset
        &&& self.should_exit == other.should_exit
        &&& self.running == other.running
        &&& self.pending == other.pending
        &&& self.launch == other.launch
    }

    proof fn lemma_lens(&self)
        ensures
            lens_of(self.lines@) == self@.lens(),
    {
        assert(lens_of(self.lines@) =~= self@.lens());
    }

    /// Rebuilds the line and command views from the scrollback, the command and the width.
    pub fn refresh_views(&mut self)
        requires
            old(self).counts_ok(),
        ensures
            final(self).layout_ok(),
            final(self)@ == old(self)@,
            final(self).units == old(self).units,
    {
        proof {
            self.lemma_lens();
        }
        self.line_views = rebuild_line_views(&self.lines, self.columns);
        self.command_views = rebuild_command_views(
            self.command.len(),
            self.prompt.len(),
            self.columns,
            self.line_views.len(),
        );
    }

    /// Room left for more units before the counts would no longer fit.
    fn room(&self) -> (r: usize)
        requires
            self.counts_ok(),
        ensures
            self@.fits(r as nat),
            forall|n: nat| self@.fits(n) <==> n <= r,
    {
        usize::MAX - 2 - self.units - self.prompt.len() - self.command.len()
    }

    /// Appends a line to the scrollback, unless the counts would no longer fit. The views
    /// are left for the caller to rebuild.
    fn push_line(&mut self, line: Vec<StyledUnit>)
        requires
            old(self).counts_ok(),
        ensures
            final(self).counts_ok(),
            final(self)@ == old(self)@.with_line(line@),
            final(self).keeps_all_but_lines(old(self)),
    {
        let room = self.room();
        if line.len() <= room {
            let ghost before = self@;
            self.units = self.units + line.len();
            self.lines.push(line);
            proof {
                assert(self@.lines =~= before.lines.push(line@));
                assert(self@.lens().drop_last() =~= before.lens());
            }
        }
    }

    /// Appends the lines of `text` that a line feed completes, styled, and hands back what
    /// follows the last line feed.
    fn push_complete_lines(&mut self, text: &Vec<char>) -> (rest: Vec<char>)
        requires
            old(self).counts_ok(),
        ensures
            final(self).counts_ok(),
            final(self)@ == old(self)@.with_lines(split_lines(text@).0),
            final(self).keeps_all_but_lines(old(self)),
            final(self).style == old(self).style,
            rest@ == split_lines(text@).1,
    {
        let ghost start = self@;
        let ghost orig = *self;
        let mut current: Vec<char> = Vec::new();
        let mut i: usize = 0;
        proof {
            assert(text@.take(0) =~= Seq::<char>::empty());
        }
        while i < text.len()
            invariant
                i <= text@.len(),
                self.counts_ok(),
                self.style == start.style,
                self@ == start.with_lines(split_lines(text@.take(i as int)).0),
                self.keeps_all_but_lines(&orig),
                current@ == split_lines(text@.take(i as int)).1,
            decreases text@.len() - i,
        {
            let c = text[i];
            proof {
                assert(text@.take(i + 1).drop_last() =~= text@.take(i as int));
            }
            if c == '\n' {
                let line = self.styled_line(&current);
                proof {
                    let done = split_lines(text@.take(i as int)).0;
                    assert(done.push(current@).drop_last() =~= done);
                }
                self.push_line(line);
                current = Vec::new();
            } else {
                current.push(c);
            }
            i = i + 1;
        }
        proof {
            assert(text@.take(i as int) =~= text@);
        }
        current
    }

    /// Appends every line of `text` to the scrollback.
    fn push_text(&mut self, text: &Vec<char>)
        requires
            old(self).counts_ok(),
        ensures
            final(self).counts_ok(),
            final(self)@ == old(self)@.with_text(text@),
            final(self).keeps_all_but_lines(old(self)),
    {
        let ghost start = self@;
        let rest = self.push_complete_lines(text);
        if rest.len() > 0 {
            let line = self.styled_line(&rest);
            proof {
                let done = split_lines(text@).0;
                assert(done.push(rest@).drop_last() =~= done);
            }
            self.push_line(line);
        }
    }

    fn styled_line(&self, cs: &Vec<char>) -> (r: Vec<StyledUnit>)
        ensures
            r@ == styled(cs@, self.style),
    {
        let mut line: Vec<StyledUnit> = Vec::new();
        let mut k: usize = 0;
        while k < cs.len()
            invariant
                k <= cs@.len(),
                line@ == styled(cs@, self.style).take(k as int),
            decreases cs@.len() - k,
        {
            let ghost before = line@;
            line.push(StyledUnit { ch: cs[k], style: self.style });
            proof {
                let all = styled(cs@, self.style);
                assert(all.len() == cs@.len());
                assert(all[k as int] == StyledUnit { ch: cs@[k as int], style: self.style });
                assert(all.take(k + 1) =~= before.push(all[k as int]));
            }
            k = k + 1;
        }
        proof {
            assert(line@ =~= styled(cs@, self.style));
        }
        line
    }
}

/// An optional offset as a natural number.
pub open spec fn opt_nat(r: Option<usize>) -> Option<nat> {
    match r {
        Some(i) => Some(i as nat),
        None => None,
    }
}

/// The characters of `a` followed by those of `b`.
fn concat_chars(a: &Vec<char>, b: &Vec<char>) -> (r: Vec<char>)
    ensures
        r@ == a@ + b@,
{
    let mut out: Vec<char> = Vec::new();
    let mut i: usize = 0;
    while i < a.len()
        invariant
            i <= a@.len(),
            out@ == a@.take(i as int),
        decreases a@.len() - i,
    {
        out.push(a[i]);
        i = i + 1;
        proof {
            assert(out@ =~= a@.take(i as int));
        }
    }
    let mut j: usize = 0;
    while j < b.len()
        invariant
            j <= b@.len(),
            out@ == a@ + b@.take(j as int),
        decreases b@.len() - j,
    {
        out.push(b[j]);
        j = j + 1;
        proof {
            assert(out@ =~= a@ + b@.take(j as int));
        }
    }
    proof {
        assert(a@.take(i as int) =~= a@);
        assert(b@.take(j as int) =~= b@);
    }
    out
}

/// Whether `v` holds exactly the characters of `s`.
fn same_chars(v: &Vec<char>, s: &str) -> (r: bool)
    ensures
        r == (v@ == s@),
{
    let t = chars_of(s);
    if v.len() != t.len() {
        return false;
    }
    let mut i: usize = 0;
    while i < v.len()
        invariant
            v@.len() == t@.len(),
            t@ == s@,
            i <= v@.len(),
            v@.take(i as int) == t@.take(i as int),
        decreases v@.len() - i,
    {
        if v[i] != t[i] {
            proof {
                assert(v@[i as int] != s@[i as int]);
            }
            return false;
        }
        i = i + 1;
        proof {
            assert(v@.take(i as int) =~= v@.take(i - 1).push(v@[i - 1]));
            assert(t@.take(i as int) =~= t@.take(i - 1).push(t@[i - 1]));
        }
    }
    proof {
        assert(v@ =~= v@.take(i as int));
        assert(t@ =~= t@.take(i as int));
    }
    true
}

impl Yesh {
    pub(crate) proof fn lemma_views(&self)
        requires
            self.layout_ok(),
        ensures
            self@.start() == self.line_views@.len(),
            self@.command_views().len() == self.command_views@.len(),
            self.command_views@.len() <= self.command@.len() + 1,
            forall|k: int|
                0 <= k < self.command_views@.len() ==> #[trigger] self.command_views@[k].offset
                    + self.command_views@[k].width <= self.command@.len(),
            forall|k: int|
                0 <= k < self.line_views@.len() ==> #[trigger] self.line_views@[k].index
                    < self.lines@.len() && self.line_views@[k].segment.offset
                    + self.line_views@[k].segment.width <= self.lines@[self.line_views@[k].index as int]@.len(),
            forall|k: int|
                0 <= k < self.line_views@.len() ==> #[trigger] self@.line_views()[k].span.width
                    == self.line_views@[k].segment.width,
            forall|k: int|
                0 <= k < self.command_views@.len() ==> #[trigger] self@.command_views()[k]
                    == self.command_views@[k]@,
            self@.index() matches Some(i) ==> i <= self@.command.len(),
    {
        let s = self@;
        assert(line_spans_of(self.line_views@).len() == self.line_views@.len());
        assert(spans_of(self.command_views@).len() == self.command_views@.len());
        lemma_wrap_shape(
            s.command.len(),
            first_room(s.prompt.len(), s.columns),
            s.columns,
            s.start(),
            0,
        );
        lemma_line_layout_bounds(s.lens(), s.columns);
        assert forall|k: int| 0 <= k < self.command_views@.len() implies #[trigger] self.command_views@[k].offset
            + self.command_views@[k].width <= self.command@.len() by {
            let cs = s.command_views();
            assert(spans_of(self.command_views@)[k] == self.command_views@[k]@);
            assert(cs[k] == self.command_views@[k]@);
            assert(0 <= cs[k].offset && cs[k].offset + cs[k].width <= s.command.len());
        }
        assert forall|k: int| 0 <= k < self.line_views@.len() implies #[trigger] self.line_views@[k].index
            < self.lines@.len() && self.line_views@[k].segment.offset
            + self.line_views@[k].segment.width <= self.lines@[self.line_views@[k].index as int]@.len() by {
            let l = s.line_views();
            assert(line_spans_of(self.line_views@)[k] == self.line_views@[k]@);
            assert(l[k] == self.line_views@[k]@);
            assert(l[k].index < s.lens().len());
            assert(s.lens()[l[k].index as int] == self.lines@[l[k].index as int]@.len());
        }
        assert forall|k: int| 0 <= k < self.line_views@.len() implies #[trigger] self@.line_views()[k].span.width
            == self.line_views@[k].segment.width by {
            assert(line_spans_of(self.line_views@)[k] == self.line_views@[k]@);
        }
        assert forall|k: int| 0 <= k < self.command_views@.len() implies #[trigger] self@.command_views()[k]
            == self.command_views@[k]@ by {
            assert(spans_of(self.command_views@)[k] == self.command_views@[k]@);
        }
    }

    /// Whether the cursor is in the command's part of the screen, the prompt being shown.
    fn is_cursor_on_command_prompt(&self) -> (r: bool)
        requires
            self.layout_ok(),
        ensures
            r == self@.on_prompt(),
    {
        proof {
            self.lemma_views();
        }
        !self.running && self.cursor_y >= self.line_views.len()
    }

    /// Whether row `y` is in the window.
    pub(crate) fn is_y_on_screen(&self, y: usize) -> (r: bool)
        ensures
            r == self@.visible(y as nat),
    {
        y >= self.scroll_offset && y - self.scroll_offset < self.rows
    }

    /// The lowest row the cursor may move to.
    fn maximum_possible_y(&self) -> (r: usize)
        requires
            self.layout_ok(),
        ensures
            r == self@.max_y(),
    {
        proof {
            self.lemma_views();
        }
        let start = self.line_views.len();
        if self.running {
            if start > 0 {
                start - 1
            } else {
                0
            }
        } else {
            start + self.command_views.len()
        }
    }

    /// Scrolls so that the cursor's row is in view.
    fn follow_cursor(&mut self)
        requires
            old(self).layout_ok(),
        ensures
            final(self).layout_ok(),
            final(self)@ == old(self)@.follow(),
            final(self).scroll_offset <= final(self).cursor_y,
    {
        if self.cursor_y < self.scroll_offset {
            self.scroll_offset = self.cursor_y;
        } else if self.cursor_y - self.scroll_offset >= self.rows {
            self.scroll_offset = self.cursor_y - (self.rows - 1);
        }
    }

    fn advance_cursor_up(&mut self)
        requires
            old(self).layout_ok(),
        ensures
            final(self).settled(),
            final(self)@ == old(self)@.up(),
    {
        let m = self.maximum_possible_y();
        if self.cursor_y == 0 {
        } else if self.cursor_y - 1 > m {
            self.cursor_y = m;
        } else {
            self.cursor_y = self.cursor_y - 1;
        }
        self.follow_cursor();
    }

    fn advance_cursor_down(&mut self)
        requires
            old(self).layout_ok(),
        ensures
            final(self).settled(),
            final(self)@ == old(self)@.down(),
    {
        let m = self.maximum_possible_y();
        if self.cursor_y >= m {
            self.cursor_y = m;
        } else {
            self.cursor_y = self.cursor_y + 1;
        }
        self.follow_cursor();
    }

    fn advance_cursor_left(&mut self)
        requires
            old(self).settled(),
        ensures
            final(self).settled(),
            final(self)@ == old(self)@.left(),
    {
        if !self.running && self.cursor_y == self.line_views.len() && self.cursor_x
            == self.prompt.len() {
        } else if self.cursor_x == 0 {
            if self.cursor_y > 0 {
                self.cursor_x = self.columns;
                self.advance_cursor_up();
            }
        } else {
            self.cursor_x = self.cursor_x - 1;
        }
    }

    fn advance_cursor_right(&mut self)
        requires
            old(self).settled(),
        ensures
            final(self).settled(),
            final(self)@ == old(self)@.right(),
    {
        if self.cursor_x >= self.columns - 1 {
            self.advance_cursor_down();
            self.cursor_x = 0;
        } else {
            self.cursor_x = self.cursor_x + 1;
        }
    }

    /// Keeps the cursor on the view of its row and its row in the window.
    fn clamp_cursor(&mut self)
        requires
            old(self).settled(),
        ensures
            final(self).wf(),
            final(self)@ == old(self)@.clamped(),
    {
        proof {
            self.lemma_views();
        }
        if self.cursor_y - self.scroll_offset > self.rows - 1 {
            self.cursor_y = self.scroll_offset + (self.rows - 1);
        }
        let most = self.columns - 1;
        let start = self.line_views.len();
        let allowed = if self.is_cursor_on_command_prompt() {
            let k = self.cursor_y - start;
            if k < self.command_views.len() {
                if k == 0 {
                    self.prompt.len() + self.command_views[0].width
                } else {
                    self.command_views[k].width
                }
            } else {
                self.prompt.len()
            }
        } else if self.cursor_y < start {
            self.line_views[self.cursor_y].segment.width
        } else {
            most
        };
        let allowed = if allowed <= most {
            allowed
        } else {
            most
        };
        if self.cursor_x > allowed {
            self.cursor_x = allowed;
        }
    }

    /// The offset in the command under the cursor, if the cursor stands on the command.
    pub fn command_index_at_cursor(&self) -> (r: Option<usize>)
        requires
            self.layout_ok(),
        ensures
            opt_nat(r) == self@.index(),
    {
        proof {
            self.lemma_views();
        }
        if !self.is_cursor_on_command_prompt() {
            return None;
        }
        let start = self.line_views.len();
        let k = self.cursor_y - start;
        let len = self.command.len();
        let p = self.prompt.len();
        if k < self.command_views.len() {
            if k == 0 && self.cursor_x < p {
                None
            } else {
                let column = if k == 0 {
                    self.cursor_x - p
                } else {
                    self.cursor_x
                };
                let offset = self.command_views[k].offset;
                if column >= len - offset {
                    Some(len)
                } else {
                    Some(offset + column)
                }
            }
        } else if k == 0 && self.cursor_x < p {
            None
        } else {
            Some(len)
        }
    }

    /// Where offset `i` of the command stands on screen, as `(column, row)`.
    fn position_at(&self, i: usize) -> (r: (usize, usize))
        requires
            self.layout_ok(),
            i <= self.command@.len(),
        ensures
            (r.0 as nat, r.1 as nat) == position_of(
                i as nat,
                self@.prompt.len(),
                self@.columns,
                self@.start(),
            ),
    {
        proof {
            self.lemma_views();
        }
        let p = self.prompt.len();
        let w = self.columns;
        let start = self.line_views.len();
        let room = if w > p {
            w - p
        } else {
            0
        };
        if i < room {
            (p + i, start)
        } else {
            let j = i - room;
            assert(j / w <= j) by (nonlinear_arith)
                requires
                    w >= 1,
            ;
            (j % w, start + 1 + j / w)
        }
    }
}

impl Yesh {
    fn insert_character_in_command_at_cursor(&mut self, c: char)
        requires
            old(self).settled(),
        ensures
            final(self).settled(),
            final(self)@ == old(self)@.inserted(c),
    {
        proof {
            self.lemma_views();
        }
        match self.command_index_at_cursor() {
            Some(i) => {
                if self.room() >= 1 {
                    self.command.insert(i, c);
                    self.refresh_views();
                    self.advance_cursor_right();
                }
            },
            None => {},
        }
    }

    fn delete_character_before_cursor(&mut self)
        requires
            old(self).settled(),
        ensures
            final(self).settled(),
            final(self)@ == old(self)@.deleted_before(),
    {
        proof {
            self.lemma_views();
        }
        match self.command_index_at_cursor() {
            Some(i) => {
                if self.command.len() == 0 {
                    self.should_exit = true;
                } else if i > 0 {
                    self.command.remove(i - 1);
                    self.refresh_views();
                    self.advance_cursor_left();
                }
            },
            None => {},
        }
    }

    fn delete_character_at_cursor(&mut self)
        requires
            old(self).settled(),
        ensures
            final(self).settled(),
            final(self)@ == old(self)@.deleted_at(),
    {
        proof {
            self.lemma_views();
        }
        match self.command_index_at_cursor() {
            Some(i) => {
                if self.command.len() == 0 {
                    self.should_exit = true;
                } else if i < self.command.len() {
                    self.command.remove(i);
                    self.refresh_views();
                }
            },
            None => {},
        }
    }

    fn execute_command(&mut self)
        requires
            old(self).settled(),
        ensures
            final(self).settled(),
            final(self)@ == old(self)@.executed(),
    {
        proof {
            self.lemma_views();
        }
        if !self.is_cursor_on_command_prompt() {
            return;
        }
        let ghost before = self@;
        let mut tokens = parse_command(&self.command);
        let echo_chars = concat_chars(&self.prompt, &self.command);
        let echo = self.styled_line(&echo_chars);
        self.command = Vec::new();
        self.push_line(echo);
        let ghost echoed = self@;
        if tokens.len() > 0 {
            if same_chars(&tokens[0], "info") {
                let info = chars_of(INFO);
                self.push_text(&info);
            } else if same_chars(&tokens[0], "exit") {
                self.should_exit = true;
            } else {
                let ghost t = seqs_of(tokens@);
                let program = tokens.remove(0);
                proof {
                    assert(seqs_of(tokens@) =~= t.drop_first());
                }
                self.launch = Some(Launch { program, args: tokens });
                self.running = true;
                self.pending = Vec::new();
                proof {
                    assert(self@.pending =~= Seq::<char>::empty());
                }
            }
        }
        self.refresh_views();
    }

    fn handle_resize(&mut self, columns: usize, lines: usize)
        requires
            old(self).settled(),
        ensures
            final(self).settled(),
            final(self)@ == old(self)@.resized(columns as nat, lines as nat),
    {
        proof {
            self.lemma_views();
        }
        let index = self.command_index_at_cursor();
        self.columns = if columns == 0 {
            1
        } else {
            columns
        };
        self.rows = if lines == 0 {
            1
        } else {
            lines
        };
        self.refresh_views();
        match index {
            Some(i) => {
                let (x, y) = self.position_at(i);
                self.cursor_x = x;
                self.cursor_y = y;
                self.follow_cursor();
            },
            None => {},
        }
    }

    fn process_key(&mut self, key: Key)
        requires
            old(self).settled(),
        ensures
            final(self).settled(),
            final(self)@ == old(self)@.keyed(key),
    {
        match key {
            Key::Backspace => self.delete_character_before_cursor(),
            Key::DeleteCharacter => self.delete_character_at_cursor(),
            Key::Left => self.advance_cursor_left(),
            Key::Right => self.advance_cursor_right(),
            Key::Up => self.advance_cursor_up(),
            Key::Down => self.advance_cursor_down(),
            Key::Resize { columns, lines } => self.handle_resize(columns, lines),
            Key::Other => {},
        }
    }

    fn process_control_character(&mut self, c: char)
        requires
            old(self).settled(),
        ensures
            final(self).settled(),
            final(self)@ == old(self)@.control(c),
    {
        match ascii_code(c) {
            Some(10u8) => self.execute_command(),
            Some(4u8) => self.delete_character_at_cursor(),
            Some(8u8) | Some(127u8) => self.delete_character_before_cursor(),
            _ => {},
        }
    }

    /// Handles a character, `control` telling whether it is a control code: a line feed
    /// runs the command, end of transmission deletes under the cursor, backspace and
    /// delete delete before it; other control codes are ignored and any other character
    /// goes into the command at the cursor, if the cursor stands on the command.
    pub fn dispatch_character(&mut self, c: char, control: bool)
        requires
            old(self).settled(),
        ensures
            final(self).settled(),
            final(self)@ == old(self)@.character(c, control),
    {
        if control {
            self.process_control_character(c);
        } else {
            self.insert_character_in_command_at_cursor(c);
        }
    }

    /// Handles a character typed at the keyboard.
    pub fn process_character(&mut self, c: char)
        requires
            old(self).settled(),
        ensures
            final(self).settled(),
            final(self)@ == old(self)@.character(c, control_code(c)),
    {
        let control = is_control(c);
        self.dispatch_character(c, control);
    }

    /// Takes in what the child printed and whether it is gone, once it has been launched.
    pub fn read_from_child(&mut self, report: &ChildReport)
        requires
            old(self).settled(),
        ensures
            final(self).settled(),
            final(self)@ == old(self)@.reported(report.output@, report.exited),
    {
        if self.running && self.launch.is_none() {
            let text = concat_chars(&self.pending, &report.output);
            let rest = self.push_complete_lines(&text);
            self.pending = rest;
            if report.exited {
                if self.pending.len() > 0 {
                    let line = self.styled_line(&self.pending);
                    self.push_line(line);
                }
                self.running = false;
                self.pending = Vec::new();
                proof {
                    assert(self@.pending =~= Seq::<char>::empty());
                }
            }
            self.refresh_views();
        }
    }

    /// One cycle of the session: the input, then the child's report, then the cursor kept
    /// on screen. Returns whether the session should end.
    pub fn process_events(&mut self, input: Input, report: &ChildReport) -> (exit: bool)
        requires
            old(self).wf(),
        ensures
            final(self).wf(),
            final(self)@ == old(self)@.cycle(input, report.output@, report.exited),
            exit == final(self)@.exit,
    {
        match input {
            Input::Nothing => {},
            Input::Interrupt => self.process_control_character('\u{3}'),
            Input::Key(key) => self.process_key(key),
            Input::Character(c) => self.process_character(c),
        }
        self.read_from_child(report);
        self.clamp_cursor();
        self.should_exit
    }
}

/// What a cycle asks of its caller: to end the session, to launch a command, or to draw.
pub enum Cycle {
    Exit,
    Launch(Launch),
    Draw(Frame),
}

/// An optional launch as the model holds it.
pub open spec fn launch_of(r: Option<Launch>) -> Option<(Seq<char>, Seq<Seq<char>>)> {
    match r {
        Some(l) => Some(l@),
        None => None,
    }
}

impl Yesh {
    /// A session in a window of `columns` by `lines` cells whose text is drawn in `style`:
    /// empty scrollback and command, the cursor right of the prompt.
    pub fn new(columns: usize, lines: usize, style: Style) -> (r: Yesh)
        ensures
            r.wf(),
            r@.columns == at_least_one(columns as nat),
            r@.height == at_least_one(lines as nat),
            r@.style == style,
            r@.prompt == PROMPT@,
            r@.command == Seq::<char>::empty(),
            r@.lines == Seq::<Seq<StyledUnit>>::empty(),
            r@.x == min_nat(PROMPT@.len(), (at_least_one(columns as nat) - 1) as nat),
            r@.y == 0,
            r@.scroll == 0,
            !r@.exit,
            !r@.running,
            r@.pending == Seq::<char>::empty(),
            r@.launch is None,
    {
        proof {
            reveal_strlit("% ");
        }
        let prompt = chars_of(PROMPT);
        let columns = if columns == 0 {
            1
        } else {
            columns
        };
        let lines = if lines == 0 {
            1
        } else {
            lines
        };
        let x = if prompt.len() <= columns - 1 {
            prompt.len()
        } else {
            columns - 1
        };
        let mut yesh = Yesh {
            columns,
            rows: lines,
            style,
            prompt,
            command: Vec::new(),
            command_views: Vec::new(),
            lines: Vec::new(),
            line_views: Vec::new(),
            units: 0,
            cursor_x: x,
            cursor_y: 0,
            scroll_offset: 0,
            should_exit: false,
            running: false,
            pending: Vec::new(),
            launch: None,
        };
        proof {
            assert(yesh@.lens() =~= Seq::<nat>::empty());
            assert(yesh@.lines =~= Seq::<Seq<StyledUnit>>::empty());
        }
        yesh.refresh_views();
        yesh
    }

    /// Hands over the command that the last cycle asked to launch, if any.
    pub fn take_launch(&mut self) -> (r: Option<Launch>)
        requires
            old(self).wf(),
        ensures
            final(self).wf(),
            launch_of(r) == old(self)@.launch,
            final(self)@ == (Session { launch: None, ..old(self)@ }),
    {
        let r = self.launch.take();
        r
    }

    /// The launch asked for could not be made, for `reason`: the error goes to the
    /// scrollback and the prompt comes back.
    pub fn launch_failed(&mut self, reason: &str)
        requires
            old(self).wf(),
        ensures
            final(self).wf(),
            final(self)@ == old(self)@.failed(reason@),
    {
        if self.running {
            self.running = false;
            self.pending = Vec::new();
            self.launch = None;
            proof {
                assert(self@.pending =~= Seq::<char>::empty());
            }
            let head = chars_of(LAUNCH_ERROR);
            let tail = chars_of(reason);
            let text = concat_chars(&head, &tail);
            self.push_text(&text);
            self.refresh_views();
            self.clamp_cursor();
        }
    }
}

/// One turn of the session's loop: the cycle's input and the child's report are handled;
/// then the session ends, a command is handed over to be launched, or a frame to be drawn.
pub fn real_main(yesh: &mut Yesh, input: Input, report: &ChildReport) -> (r: Cycle)
    requires
        old(yesh).wf(),
    ensures
        final(yesh).wf(),
        ({
            let after = old(yesh)@.cycle(input, report.output@, report.exited);
            &&& after.exit ==> r is Exit && final(yesh)@ == after
            &&& (!after.exit && after.launch is Some) ==> (r matches Cycle::Launch(l) && Some(l@)
                == after.launch && final(yesh)@ == (Session { launch: None, ..after }))
            &&& (!after.exit && after.launch is None) ==> (r matches Cycle::Draw(f) && frame_shows(
                f,
                after,
            ) && final(yesh)@ == after)
        }),
{
    if yesh.process_events(input, report) {
        return Cycle::Exit;
    }
    match yesh.take_launch() {
        Some(l) => Cycle::Launch(l),
        None => Cycle::Draw(yesh.render()),
    }
}

/// Rebuilding the views twice in a row, the model unchanged, gives identical view lists:
/// any two states whose views are current for the same model hold the same views.
pub proof fn lemma_rebuild_idempotent(a: Yesh, b: Yesh)
    requires
        a.layout_ok(),
        b.layout_ok(),
        a@ == b@,
    ensures
        a.line_views@ == b.line_views@,
        a.command_views@ == b.command_views@,
{
    assert(line_spans_of(a.line_views@).len() == a.line_views@.len());
    assert(line_spans_of(b.line_views@).len() == b.line_views@.len());
    assert forall|k: int| 0 <= k < a.line_views@.len() implies a.line_views@[k]
        == b.line_views@[k] by {
        assert(line_spans_of(a.line_views@)[k] == a.line_views@[k]@);
        assert(line_spans_of(b.line_views@)[k] == b.line_views@[k]@);
    }
    assert(a.line_views@ =~= b.line_views@);
    assert(spans_of(a.command_views@).len() == a.command_views@.len());
    assert(spans_of(b.command_views@).len() == b.command_views@.len());
    assert forall|k: int| 0 <= k < a.command_views@.len() implies a.command_views@[k]
        == b.command_views@[k] by {
        assert(spans_of(a.command_views@)[k] == a.command_views@[k]@);
        assert(spans_of(b.command_views@)[k] == b.command_views@[k]@);
    }
    assert(a.command_views@ =~= b.command_views@);
}

} // verus!
