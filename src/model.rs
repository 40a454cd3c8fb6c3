use crate::layout::{
    command_layout, first_room, lemma_cursor_round_trip, lemma_wrap_shape,
    lemma_wrap_widths_exact, line_layout, min_nat, offset_under, position_of, sum, LineSpan, Span,
};
use crate::text::{
    all_lines, blanks_of, control_code, split_lines, styled, tokens, Style, StyledUnit,
};
use vstd::arithmetic::div_mod::{lemma_fundamental_div_mod, lemma_mod_pos_bound};
use vstd::prelude::*;

verus! {

/// Where the cursor may sit in a window of `height` rows scrolled by `scroll` rows, once
/// row `y` has been brought into view.
pub open spec fn scrolled_to(scroll: nat, y: nat, height: nat) -> nat {
    if y < scroll {
        y
    } else if y >= scroll + height {
        (y + 1 - height) as nat
    } else {
        scroll
    }
}

/// A window dimension as kept: never below one.
pub open spec fn at_least_one(n: nat) -> nat {
    if n == 0 {
        1
    } else {
        n
    }
}

/// The state of a shell session as the contracts speak of it.
pub struct Session {
    pub columns: nat,
    pub height: nat,
    pub style: Style,
    pub prompt: Seq<char>,
    pub command: Seq<char>,
    pub lines: Seq<Seq<StyledUnit>>,
    pub x: nat,
    pub y: nat,
    pub scroll: nat,
    pub exit: bool,
    pub running: bool,
    pub pending: Seq<char>,
    pub launch: Option<(Seq<char>, Seq<Seq<char>>)>,
}

impl Session {
    /// The length of each scrollback line.
    pub open spec fn lens(self) -> Seq<nat> {
        self.lines.map_values(|l: Seq<StyledUnit>| l.len())
    }

    /// The scrollback wrapped at the window width.
    pub open spec fn line_views(self) -> Seq<LineSpan> {
        line_layout(self.lens(), self.columns)
    }

    /// The row of the prompt: one past the last line view.
    pub open spec fn start(self) -> nat {
        self.line_views().len()
    }

    /// The command wrapped behind the prompt, from the prompt's row down.
    pub open spec fn command_views(self) -> Seq<Span> {
        command_layout(self.command.len(), self.prompt.len(), self.columns, self.start())
    }

    /// Whether the cursor is in the command's part of the screen, the prompt being shown.
    pub open spec fn on_prompt(self) -> bool {
        !self.running && self.y >= self.start()
    }

    /// The offset in the command that the cursor stands on, if it stands on one.
    pub open spec fn index(self) -> Option<nat> {
        if self.on_prompt() {
            offset_under(
                self.command_views(),
                self.command.len(),
                self.prompt.len(),
                self.start(),
                self.x,
                self.y,
            )
        } else {
            None
        }
    }

    /// The lowest row the cursor may move to.
    pub open spec fn max_y(self) -> nat {
        if self.running {
            if self.start() > 0 {
                (self.start() - 1) as nat
            } else {
                0
            }
        } else {
            self.start() + self.command_views().len()
        }
    }

    /// Whether `extra` more units still leave every row and offset countable.
    pub open spec fn fits(self, extra: nat) -> bool {
        sum(self.lens()) + self.prompt.len() + self.command.len() + extra + 2 <= usize::MAX
    }

    /// The window scrolled as little as brings the cursor's row into view.
    pub open spec fn follow(self) -> Session {
        Session { scroll: scrolled_to(self.scroll, self.y, self.height), ..self }
    }

    /// The cursor one row up, kept at or above the lowest row it may reach.
    pub open spec fn up(self) -> Session {
        let y = if self.y == 0 {
            0
        } else if self.y - 1 > self.max_y() {
            self.max_y()
        } else {
            (self.y - 1) as nat
        };
        Session { y, ..self }.follow()
    }

    /// The cursor one row down, kept at or above the lowest row it may reach.
    pub open spec fn down(self) -> Session {
        let y = if self.y + 1 > self.max_y() {
            self.max_y()
        } else {
            self.y + 1
        };
        Session { y, ..self }.follow()
    }

    /// The cursor one column left, to the end of the row above from the first column,
    /// and not at all from the first editable column of the prompt's row.
    pub open spec fn left(self) -> Session {
        if self.on_prompt() && self.y == self.start() && self.x == self.prompt.len() {
            self
        } else if self.x == 0 {
            if self.y > 0 {
                Session { x: self.columns, ..self }.up()
            } else {
                self
            }
        } else {
            Session { x: (self.x - 1) as nat, ..self }
        }
    }

    /// The cursor one column right, to the start of the row below from the last column.
    pub open spec fn right(self) -> Session {
        if self.x + 1 >= self.columns {
            Session { x: 0, ..self.down() }
        } else {
            Session { x: self.x + 1, ..self }
        }
    }

    /// The rightmost column the cursor may take on its row: the end of the view there.
    pub open spec fn allowed_x(self) -> nat {
        let most = (self.columns - 1) as nat;
        let views = self.command_views();
        let a = if self.on_prompt() {
            let k = (self.y - self.start()) as nat;
            if k < views.len() {
                if k == 0 {
                    self.prompt.len() + views[0].width
                } else {
                    views[k as int].width
                }
            } else {
                self.prompt.len()
            }
        } else if self.y < self.start() {
            self.line_views()[self.y as int].span.width
        } else {
            most
        };
        min_nat(a, most)
    }

    /// The cursor kept inside the window, then on the view of the row it ends up on.
    pub open spec fn clamped(self) -> Session {
        let s = Session { y: min_nat(self.y, (self.scroll + self.height - 1) as nat), ..self };
        Session { x: min_nat(s.x, s.allowed_x()), ..s }
    }

    /// The scrollback with `line` appended, while the counts still fit.
    pub open spec fn with_line(self, line: Seq<StyledUnit>) -> Session {
        if self.fits(line.len()) {
            Session { lines: self.lines.push(line), ..self }
        } else {
            self
        }
    }

    /// The scrollback with the lines `ls` appended in order.
    pub open spec fn with_lines(self, ls: Seq<Seq<char>>) -> Session
        decreases ls.len(),
    {
        if ls.len() == 0 {
            self
        } else {
            self.with_lines(ls.drop_last()).with_line(styled(ls.last(), self.style))
        }
    }

    /// The scrollback with every line of `text` appended.
    pub open spec fn with_text(self, text: Seq<char>) -> Session {
        self.with_lines(all_lines(text))
    }

    /// Child output received: the lines it completes go to the scrollback, the rest waits.
    pub open spec fn received(self, text: Seq<char>) -> Session {
        let (done, rest) = split_lines(self.pending + text);
        Session { pending: rest, ..self.with_lines(done) }
    }

    /// The child is gone: what waited becomes a line of its own, and the prompt comes back.
    pub open spec fn finished(self) -> Session {
        let s = if self.pending.len() > 0 {
            self.with_line(styled(self.pending, self.style))
        } else {
            self
        };
        Session { running: false, pending: Seq::empty(), ..s }
    }
    /// A character typed: it goes into the command at the cursor, which moves on, if the
    /// cursor stands on the command and the counts still fit.
    pub open spec fn inserted(self, c: char) -> Session {
        match self.index() {
            Some(i) => if self.fits(1) {
                Session { command: self.command.insert(i as int, c), ..self }.right()
            } else {
                self
            },
            None => self,
        }
    }

    /// Backspace: the unit before the cursor goes; at an empty command the session ends.
    pub open spec fn deleted_before(self) -> Session {
        match self.index() {
            Some(i) => if self.command.len() == 0 {
                Session { exit: true, ..self }
            } else if i == 0 {
                self
            } else {
                Session { command: self.command.remove(i - 1), ..self }.left()
            },
            None => self,
        }
    }

    /// Delete: the unit under the cursor goes; at an empty command the session ends.
    pub open spec fn deleted_at(self) -> Session {
        match self.index() {
            Some(i) => if self.command.len() == 0 {
                Session { exit: true, ..self }
            } else if i == self.command.len() {
                self
            } else {
                Session { command: self.command.remove(i as int), ..self }
            },
            None => self,
        }
    }

    /// The command runs: echoed into the scrollback, then a built-in or a launch.
    pub open spec fn executed(self) -> Session {
        if !self.on_prompt() {
            self
        } else {
            let t = tokens(self.command, blanks_of(self.command));
            let s = Session { command: Seq::empty(), ..self }.with_line(
                styled(self.prompt + self.command, self.style),
            );
            if t.len() == 0 {
                s
            } else if t[0] == "info"@ {
                s.with_text(INFO@)
            } else if t[0] == "exit"@ {
                Session { exit: true, ..s }
            } else {
                Session {
                    running: true,
                    pending: Seq::empty(),
                    launch: Some((t[0], t.drop_first())),
                    ..s
                }
            }
        }
    }

    /// A new window size; a cursor on the command keeps its offset there.
    pub open spec fn resized(self, columns: nat, height: nat) -> Session {
        let s = Session { columns: at_least_one(columns), height: at_least_one(height), ..self };
        match self.index() {
            Some(i) => {
                let p = position_of(i, s.prompt.len(), s.columns, s.start());
                Session { x: p.0, y: p.1, ..s }.follow()
            },
            None => s,
        }
    }

    /// A control code typed: line feed runs the command, end of transmission deletes
    /// under the cursor, backspace and delete delete before it; the rest do nothing.
    pub open spec fn control(self, c: char) -> Session {
        let code = c as u32;
        if code == 10 {
            self.executed()
        } else if code == 4 {
            self.deleted_at()
        } else if code == 8 || code == 127 {
            self.deleted_before()
        } else {
            self
        }
    }

    /// A character typed, `is_control` telling whether it is a control code.
    pub open spec fn character(self, c: char, is_control: bool) -> Session {
        if is_control {
            self.control(c)
        } else {
            self.inserted(c)
        }
    }

    /// A key pressed.
    pub open spec fn keyed(self, k: Key) -> Session {
        match k {
            Key::Backspace => self.deleted_before(),
            Key::DeleteCharacter => self.deleted_at(),
            Key::Left => self.left(),
            Key::Right => self.right(),
            Key::Up => self.up(),
            Key::Down => self.down(),
            Key::Resize { columns, lines } => self.resized(columns as nat, lines as nat),
            Key::Other => self,
        }
    }

    /// The input of a cycle handled; an interrupt request is taken in and does nothing.
    pub open spec fn handled(self, input: Input) -> Session {
        match input {
            Input::Nothing => self,
            Input::Interrupt => self.control('\u{3}'),
            Input::Key(k) => self.keyed(k),
            Input::Character(c) => self.character(c, control_code(c)),
        }
    }

    /// What the child did since the last cycle, applied once it has been launched.
    pub open spec fn reported(self, output: Seq<char>, exited: bool) -> Session {
        if self.running && self.launch.is_none() {
            let s = self.received(output);
            if exited {
                s.finished()
            } else {
                s
            }
        } else {
            self
        }
    }

    /// The launch could not be made: the error goes to the scrollback, the prompt comes back.
    pub open spec fn failed(self, reason: Seq<char>) -> Session {
        if self.running {
            Session {
                running: false,
                pending: Seq::empty(),
                launch: None,
                ..self
            }.with_text(LAUNCH_ERROR@ + reason).clamped()
        } else {
            self
        }
    }

    /// One cycle: the input, then the child's report, then the cursor clamped.
    pub open spec fn cycle(self, input: Input, output: Seq<char>, exited: bool) -> Session {
        self.handled(input).reported(output, exited).clamped()
    }
}

/// The prompt shown before the command.
pub const PROMPT: &'static str = "% ";

/// The start of the line that reports a command that could not be launched.
pub const LAUNCH_ERROR: &'static str = "yesh: ERROR: Failed to launch command: ";

/// The text that the `info` built-in prints.
pub const INFO: &'static str = "    yesh  Copyright (C) 2023 bit69tream\n    This program comes with ABSOLUTELY NO WARRANTY;\n    This is free software, and you are welcome to redistribute it under certain conditions;\n    See <https://www.gnu.org/licenses/>";

/// A key other than a character.
#[derive(Clone, Copy, Debug, PartialEq, Eq)]
pub enum Key {
    Backspace,
    DeleteCharacter,
    Left,
    Right,
    Up,
    Down,
    /// The window now has this many columns and lines.
    Resize { columns: usize, lines: usize },
    Other,
}

/// What one cycle read: nothing before the timeout, a key, a character, or an interrupt
/// request that came while no input was waiting.
#[derive(Clone, Copy, Debug, PartialEq, Eq)]
pub enum Input {
    Nothing,
    Key(Key),
    Character(char),
    Interrupt,
}

/// What the child printed since the last cycle, and whether it has exited with all of its
/// output delivered.
pub struct ChildReport {
    pub output: Vec<char>,
    pub exited: bool,
}

/// At the edges of editing: with the cursor on an empty command, deleting either way ends
/// the session; deleting forward at the end of a non-empty command, or backward at its
/// start, changes nothing; and moving up from the top row, the window scrolled to the top,
/// changes nothing either.
pub proof fn lemma_edit_boundaries(s: Session)
    ensures
        (s.index() is Some && s.command.len() == 0) ==> s.deleted_before().exit
            && s.deleted_at().exit,
        (s.index() == Some(s.command.len()) && s.command.len() > 0) ==> s.deleted_at() == s,
        (s.index() == Some(0nat) && s.command.len() > 0) ==> s.deleted_before() == s,
        (s.y == 0 && s.scroll == 0 && s.height > 0) ==> s.up() == s,
{
}

/// Moving the cursor to where any offset of the command stands on screen, and reading the
/// offset under the cursor back, gives that offset, in a window wider than the prompt with
/// the prompt shown.
pub proof fn lemma_index_round_trip(s: Session, i: nat)
    requires
        !s.running,
        s.columns > s.prompt.len(),
        i <= s.command.len(),
    ensures
        ({
            let p = position_of(i, s.prompt.len(), s.columns, s.start());
            (Session { x: p.0, y: p.1, ..s }).index() == Some(i)
        }),
{
    lemma_cursor_round_trip(s.command.len(), s.prompt.len(), s.columns, s.start(), i);
}

/// A resize keeps the cursor on its offset in the command: with the cursor on an offset and
/// a new window wider than the prompt, the cursor stands on that offset again once the
/// cycle has clamped it.
pub proof fn lemma_resize_keeps_offset(s: Session, columns: nat, height: nat)
    requires
        s.index() is Some,
        columns > s.prompt.len(),
    ensures
        s.resized(columns, height).clamped().index() == s.index(),
{
    let i = s.index().unwrap();
    let t = Session { columns: at_least_one(columns), height: at_least_one(height), ..s };
    let p = position_of(i, t.prompt.len(), t.columns, t.start());
    let placed = Session { x: p.0, y: p.1, ..t };
    let r = placed.follow();
    assert(r == s.resized(columns, height));
    lemma_index_round_trip(t, i);
    assert(r.index() == placed.index());
    let len = t.command.len();
    let room = first_room(t.prompt.len(), t.columns);
    let views = t.command_views();
    lemma_wrap_shape(len, room, t.columns, t.start(), 0);
    assert(p.0 <= r.allowed_x()) by {
        if i < room {
            assert(views.len() > 0 || len == 0);
            if len > 0 {
                assert(views[0].width == min_nat(len, room));
            }
        } else {
            let j = (i - room) as nat;
            let q = j / t.columns;
            lemma_fundamental_div_mod(j as int, t.columns as int);
            lemma_mod_pos_bound(j as int, t.columns as int);
            assert(q * t.columns <= j) by (nonlinear_arith)
                requires
                    j == t.columns * q + j % t.columns,
                    j % t.columns >= 0,
            ;
            let k = 1 + q;
            if k < views.len() {
                assert(views[k as int].offset == room + q * t.columns);
                lemma_wrap_widths_exact(len, room, t.columns, t.start(), 0, k as int);
            } else {
                let n = views.len();
                assert(len > 0);
                if n >= 2 {
                    assert(views[n - 1].offset == room + (n - 2) * t.columns);
                    assert(room + (n - 2) * t.columns + t.columns <= room + q * t.columns)
                        by (nonlinear_arith)
                        requires
                            n <= 1 + q,
                            n >= 2,
                            t.columns > 0,
                    ;
                }
            }
        }
    }
}

/// An interrupt request is taken in and changes nothing: a running child keeps running and
/// the command and scrollback stay as they are.
pub proof fn lemma_interrupt_is_absorbed(s: Session)
    ensures
        s.handled(Input::Interrupt) == s,
{
}

} // verus!
