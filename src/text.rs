use vstd::prelude::*;
use vstd::string::StrSliceExecFns;

verus! {

/// Display attributes of a unit: emphasis bits and a color pair number.
#[derive(Clone, Copy, Debug, PartialEq, Eq)]
pub struct Style {
    pub attributes: u32,
    pub color_pair: i16,
}

/// One displayable character with its display attributes.
#[derive(Clone, Copy, Debug, PartialEq, Eq)]
pub struct StyledUnit {
    pub ch: char,
    pub style: Style,
}

/// The character `c` in `style`.
pub open spec fn unit_of(c: char, style: Style) -> StyledUnit {
    StyledUnit { ch: c, style }
}

/// The characters of `s`, each in `style`.
pub open spec fn styled(s: Seq<char>, style: Style) -> Seq<StyledUnit> {
    s.map_values(|c: char| unit_of(c, style))
}

/// Whether `c` is a control code, as `char::is_control` tells (Unicode category Cc).
pub uninterp spec fn control_code(c: char) -> bool;

/// Whether `c` is white space, as `char::is_whitespace` tells (Unicode White_Space).
pub uninterp spec fn white_space(c: char) -> bool;

/// Relies on `char::is_control`: whether the character is a control code.
#[verifier::external_body]
pub(crate) fn is_control(c: char) -> (r: bool)
    ensures
        r == control_code(c),
{
    c.is_control()
}

/// Relies on `char::is_whitespace`: whether the character is white space.
#[verifier::external_body]
pub(crate) fn is_white_space(c: char) -> (r: bool)
    ensures
        r == white_space(c),
{
    c.is_whitespace()
}

/// Relies on `ascii::ToAsciiChar::to_ascii_char` for `char` and `AsciiChar::as_byte`:
/// a character below 0x80 converts to the ASCII character of that code, any other fails.
#[verifier::external_body]
pub(crate) fn ascii_code(c: char) -> (r: Option<u8>)
    ensures
        r == if (c as u32) < 0x80 {
            Some(c as u8)
        } else {
            None::<u8>
        },
{
    match ascii::ToAsciiChar::to_ascii_char(c) {
        Ok(ascii_char) => Some(ascii_char.as_byte()),
        Err(_) => None,
    }
}

/// Splits `text` at line feeds: the lines that a line feed completed, and what follows the
/// last line feed.
pub open spec fn split_lines(text: Seq<char>) -> (Seq<Seq<char>>, Seq<char>)
    decreases text.len(),
{
    if text.len() == 0 {
        (Seq::empty(), Seq::empty())
    } else {
        let (done, current) = split_lines(text.drop_last());
        if text.last() == '\n' {
            (done.push(current), Seq::empty())
        } else {
            (done, current.push(text.last()))
        }
    }
}

/// Every line of `text`: those that a line feed completed, then the rest if it is not empty.
pub open spec fn all_lines(text: Seq<char>) -> Seq<Seq<char>> {
    let (done, rest) = split_lines(text);
    if rest.len() > 0 {
        done.push(rest)
    } else {
        done
    }
}

/// The words of `cs`, where `blanks` marks the white space: the runs of characters between
/// white space, and the run still open at the end.
pub open spec fn words(cs: Seq<char>, blanks: Seq<bool>) -> (Seq<Seq<char>>, Seq<char>)
    decreases cs.len(),
{
    if cs.len() == 0 {
        (Seq::empty(), Seq::empty())
    } else {
        let (done, current) = words(cs.drop_last(), blanks.take(cs.len() - 1));
        if blanks[cs.len() - 1] {
            if current.len() > 0 {
                (done.push(current), Seq::empty())
            } else {
                (done, Seq::empty())
            }
        } else {
            (done, current.push(cs.last()))
        }
    }
}

/// Where the comment of a command line begins: its first `#`, or its end.
pub open spec fn comment_start(cs: Seq<char>) -> nat
    decreases cs.len(),
{
    if cs.len() == 0 {
        0
    } else if comment_start(cs.drop_last()) < cs.len() - 1 {
        comment_start(cs.drop_last())
    } else if cs.last() == '#' {
        (cs.len() - 1) as nat
    } else {
        cs.len()
    }
}

/// The tokens of a command line: the words before its comment.
pub open spec fn tokens(cs: Seq<char>, blanks: Seq<bool>) -> Seq<Seq<char>> {
    let n = comment_start(cs) as int;
    let (done, rest) = words(cs.take(n), blanks.take(n));
    if rest.len() > 0 {
        done.push(rest)
    } else {
        done
    }
}

/// For each character, whether it is white space.
pub open spec fn blanks_of(cs: Seq<char>) -> Seq<bool> {
    cs.map_values(|c: char| white_space(c))
}

/// The contents of each vector.
pub open spec fn seqs_of(v: Seq<Vec<char>>) -> Seq<Seq<char>> {
    v.map_values(|w: Vec<char>| w@)
}

/// Splits a command line into tokens, `blanks[i]` telling whether `command[i]` is white space.
pub fn split_command(command: &Vec<char>, blanks: &Vec<bool>) -> (r: Vec<Vec<char>>)
    requires
        blanks@.len() == command@.len(),
    ensures
        seqs_of(r@) == tokens(command@, blanks@),
{
    let ghost cs = command@;
    let ghost bs = blanks@;
    let mut out: Vec<Vec<char>> = Vec::new();
    let mut current: Vec<char> = Vec::new();
    let mut i: usize = 0;
    let mut cut: bool = false;
    proof {
        assert(cs.take(0) =~= Seq::<char>::empty());
        assert(bs.take(0) =~= Seq::<bool>::empty());
        assert(seqs_of(out@) =~= Seq::<Seq<char>>::empty());
    }
    while i < command.len() && !cut
        invariant
            cs == command@,
            bs == blanks@,
            bs.len() == cs.len(),
            i <= cs.len(),
            cut ==> comment_start(cs) == i,
            !cut ==> comment_start(cs.take(i as int)) == i,
            words(cs.take(i as int), bs.take(i as int)) == (seqs_of(out@), current@),
        decreases cs.len() - i + (if cut { 0int } else { 1int }),
    {
        let c = command[i];
        proof {
            assert(cs.take(i + 1).drop_last() =~= cs.take(i as int));
            assert(bs.take(i + 1).take(i as int) =~= bs.take(i as int));
            assert(cs.take(i + 1).last() == c);
        }
        if c == '#' {
            cut = true;
            proof {
                lemma_comment_start_prefix(cs, (i + 1) as nat);
            }
        } else {
            proof {
                lemma_comment_start_prefix(cs, (i + 1) as nat);
            }
            if blanks[i] {
                if current.len() > 0 {
                    let ghost before = seqs_of(out@);
                    out.push(current);
                    current = Vec::new();
                    proof {
                        assert(seqs_of(out@) =~= before.push(
                            words(cs.take(i as int), bs.take(i as int)).1,
                        ));
                    }
                } else {
                    current = Vec::new();
                }
            } else {
                current.push(c);
            }
            proof {
                assert(current@ == words(cs.take(i + 1), bs.take(i + 1)).1);
            }
            i = i + 1;
        }
    }
    proof {
        if !cut {
            assert(cs.take(i as int) =~= cs);
        }
        let n = comment_start(cs) as int;
        assert(n == i);
    }
    if current.len() > 0 {
        out.push(current);
    }
    out
}

/// `comment_start` of a prefix that holds no `#` before its last place is the prefix's.
proof fn lemma_comment_start_prefix(cs: Seq<char>, n: nat)
    requires
        0 < n <= cs.len(),
        comment_start(cs.take(n - 1)) == n - 1,
    ensures
        cs[n - 1] == '#' ==> comment_start(cs) == n - 1,
        cs[n - 1] != '#' ==> comment_start(cs.take(n as int)) == n,
{
    assert(cs.take(n as int).drop_last() =~= cs.take(n - 1));
    if cs[n - 1] == '#' {
        lemma_comment_start_keeps(cs, n, (n - 1) as nat);
    }
}

/// Once a prefix's comment starts before its end, longer prefixes keep that start.
proof fn lemma_comment_start_keeps(cs: Seq<char>, m: nat, n: nat)
    requires
        n < m <= cs.len(),
        comment_start(cs.take(m as int)) == n,
    ensures
        comment_start(cs) == n,
    decreases cs.len() - m,
{
    if m == cs.len() {
        assert(cs.take(m as int) =~= cs);
    } else {
        assert(cs.take((m + 1) as int).drop_last() =~= cs.take(m as int));
        lemma_comment_start_keeps(cs, m + 1, n);
    }
}

/// Tokenises a command line on white space, stopping at the first `#`.
pub fn parse_command(command: &Vec<char>) -> (r: Vec<Vec<char>>)
    ensures
        seqs_of(r@) == tokens(command@, blanks_of(command@)),
{
    let mut blanks: Vec<bool> = Vec::new();
    let mut i: usize = 0;
    while i < command.len()
        invariant
            i <= command@.len(),
            blanks@ == blanks_of(command@).take(i as int),
        decreases command@.len() - i,
    {
        let b = is_white_space(command[i]);
        blanks.push(b);
        i = i + 1;
        proof {
            assert(blanks@ =~= blanks_of(command@).take(i as int));
        }
    }
    proof {
        assert(blanks@ =~= blanks_of(command@));
    }
    split_command(command, &blanks)
}

/// The characters of `s`, in order.
pub fn chars_of(s: &str) -> (r: Vec<char>)
    ensures
        r@ == s@,
{
    let n = s.unicode_len();
    let mut out: Vec<char> = Vec::new();
    let mut i: usize = 0;
    while i < n
        invariant
            n == s@.len(),
            i <= n,
            out@ == s@.take(i as int),
        decreases n - i,
    {
        out.push(s.get_char(i));
        i = i + 1;
        proof {
            assert(out@ =~= s@.take(i as int));
        }
    }
    proof {
        assert(s@.take(i as int) =~= s@);
    }
    out
}

} // verus!
