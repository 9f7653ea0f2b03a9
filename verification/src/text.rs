//! Scanning bytes: runs of one class of bytes, and the lines of a text.

use crate::pattern::{SEPARATOR, STEP_PLAY, STEP_SILENT};
use vstd::prelude::*;

verus! {

/// The space.
pub const SPACE: u8 = 0x20;

/// The tab.
pub const TAB: u8 = 0x09;

/// The carriage return.
pub const CARRIAGE_RETURN: u8 = 0x0d;

/// The line feed.
pub const LINE_FEED: u8 = 0x0a;

/// A class of bytes that a field of a line is made of.
#[derive(Clone, Copy, Debug)]
pub enum Class {
    /// A space or a tab.
    Blank,
    /// Any byte but a space or a tab: what an instrument's name is made of.
    Name,
    /// Any byte but a space, a tab, a carriage return or a line feed: what
    /// a sample file's path is made of.
    Path,
    /// `x`, `-` or `|`: what a step block is made of.
    Step,
    /// Any byte but a line feed: what a line is made of.
    Line,
}

impl Class {
    /// Whether `byte` belongs to the class.
    pub open spec fn holds(self, byte: u8) -> bool {
        match self {
            Class::Blank => byte == SPACE || byte == TAB,
            Class::Name => byte != SPACE && byte != TAB,
            Class::Path => byte != SPACE && byte != TAB && byte != CARRIAGE_RETURN && byte
                != LINE_FEED,
            Class::Step => byte == STEP_PLAY || byte == STEP_SILENT || byte == SEPARATOR,
            Class::Line => byte != LINE_FEED,
        }
    }

    /// Tells whether `byte` belongs to the class.
    pub fn has(self, byte: u8) -> (held: bool)
        ensures
            held == self.holds(byte),
    {
        match self {
            Class::Blank => byte == SPACE || byte == TAB,
            Class::Name => byte != SPACE && byte != TAB,
            Class::Path => byte != SPACE && byte != TAB && byte != CARRIAGE_RETURN && byte
                != LINE_FEED,
            Class::Step => byte == STEP_PLAY || byte == STEP_SILENT || byte == SEPARATOR,
            Class::Line => byte != LINE_FEED,
        }
    }
}

/// The length of the longest prefix of `s` made of bytes of `class`.
pub open spec fn run(s: Seq<u8>, class: Class) -> nat
    decreases s.len(),
{
    if s.len() > 0 && class.holds(s[0]) {
        1 + run(s.skip(1), class)
    } else {
        0
    }
}

/// A run is a prefix, every byte of it is of the class, and the byte that
/// follows it, if any, is not.
pub proof fn lemma_run(s: Seq<u8>, class: Class)
    ensures
        run(s, class) <= s.len(),
        forall|i: int| 0 <= i < run(s, class) ==> class.holds(#[trigger] s[i]),
        run(s, class) < s.len() ==> !class.holds(s[run(s, class) as int]),
    decreases s.len(),
{
    if s.len() > 0 && class.holds(s[0]) {
        let rest = s.skip(1);
        lemma_run(rest, class);
        assert forall|i: int| 0 <= i < run(s, class) implies class.holds(#[trigger] s[i]) by {
            if i > 0 {
                assert(s[i] == rest[i - 1]);
            }
        }
        if run(s, class) < s.len() {
            assert(s[run(s, class) as int] == rest[run(rest, class) as int]);
        }
    }
}

/// A prefix with the two properties of a run is the run.
pub proof fn lemma_run_unique(s: Seq<u8>, class: Class, n: int)
    requires
        0 <= n <= s.len(),
        forall|i: int| 0 <= i < n ==> class.holds(#[trigger] s[i]),
        n < s.len() ==> !class.holds(s[n]),
    ensures
        run(s, class) == n,
{
    lemma_run(s, class);
    let r = run(s, class) as int;
    if r < n {
        assert(class.holds(s[r]));
    } else if n < r {
        assert(class.holds(s[n]));
    }
}

/// Returns the length of the longest prefix of `s` made of bytes of `class`.
pub fn scan(s: &[u8], class: Class) -> (n: usize)
    ensures
        n == run(s@, class),
        n <= s@.len(),
{
    let mut n: usize = 0;
    assert(s@.skip(0) =~= s@);
    while n < s.len() && class.has(s[n])
        invariant
            n <= s@.len(),
            run(s@, class) == n + run(s@.skip(n as int), class),
        decreases s@.len() - n,
    {
        assert(s@.skip(n as int).skip(1) =~= s@.skip(n + 1));
        n += 1;
    }
    n
}

/// Tells whether two byte strings are the same.
pub fn same_bytes(a: &[u8], b: &[u8]) -> (same: bool)
    ensures
        same == (a@ == b@),
{
    if a.len() != b.len() {
        return false;
    }
    let mut n: usize = 0;
    while n < a.len()
        invariant
            n <= a@.len(),
            a@.len() == b@.len(),
            a@.take(n as int) == b@.take(n as int),
        decreases a@.len() - n,
    {
        if a[n] != b[n] {
            return false;
        }
        assert(a@.take(n + 1) =~= a@.take(n as int).push(a@[n as int]));
        assert(b@.take(n + 1) =~= b@.take(n as int).push(b@[n as int]));
        n += 1;
    }
    assert(a@.take(n as int) =~= a@);
    assert(b@.take(n as int) =~= b@);
    true
}

/// A line as it stood before its line feed, without the carriage return
/// that may end it.
pub open spec fn without_return(line: Seq<u8>) -> Seq<u8> {
    if line.len() > 0 && line.last() == CARRIAGE_RETURN {
        line.drop_last()
    } else {
        line
    }
}

/// The lines of a text. A line ends with a line feed, or with a carriage
/// return and a line feed, neither of which belongs to it. What follows the
/// last line feed is a line too, unless it is empty, and keeps a carriage
/// return at its end.
pub open spec fn lines_of(text: Seq<u8>) -> Seq<Seq<u8>>
    decreases text.len(),
{
    let n = run(text, Class::Line) as int;
    if text.len() == 0 {
        Seq::empty()
    } else if n >= text.len() {
        seq![text]
    } else {
        seq![without_return(text.take(n))] + lines_of(text.skip(n + 1))
    }
}

/// What each of the given slices holds.
pub open spec fn views(slices: Seq<&[u8]>) -> Seq<Seq<u8>> {
    Seq::new(slices.len(), |i: int| slices[i]@)
}

/// Splits a text into its lines.
pub fn split_lines(text: &[u8]) -> (lines: Vec<&[u8]>)
    ensures
        views(lines@) == lines_of(text@),
{
    let mut lines: Vec<&[u8]> = Vec::new();
    let mut rest = text;
    assert(views(lines@) =~= Seq::<Seq<u8>>::empty());
    while rest.len() > 0
        invariant
            lines_of(text@) == views(lines@) + lines_of(rest@),
        decreases rest@.len(),
    {
        let n = scan(rest, Class::Line);
        let ghost before = views(lines@);
        let ghost whole = rest@;
        if n == rest.len() {
            lines.push(rest);
            rest = rest.split_at(n).1;
            assert(lines_of(rest@) =~= Seq::<Seq<u8>>::empty());
            assert(views(lines@) =~= before + seq![whole]);
        } else {
            let (line, tail) = rest.split_at(n);
            let line = if n > 0 && line[n - 1] == CARRIAGE_RETURN {
                line.split_at(n - 1).0
            } else {
                line
            };
            assert(line@ == without_return(whole.take(n as int)));
            lines.push(line);
            rest = tail.split_at(1).1;
            assert(rest@ =~= whole.skip(n + 1));
            assert(views(lines@) =~= before + seq![line@]);
            assert(lines_of(text@) =~= views(lines@) + lines_of(rest@));
        }
    }
    assert(lines_of(rest@) =~= Seq::<Seq<u8>>::empty());
    lines
}

} // verus!
