use vstd::prelude::*;

verus! {

/// The classes of characters that the scanner can consume in runs.
#[derive(Clone, Copy, PartialEq, Eq, Debug)]
pub enum Run {
    /// The heading marker `#`.
    Marker,
    /// A plain space.
    Space,
    /// Anything but a line break.
    Text,
}

impl Run {
    pub open spec fn admits(self, c: char) -> bool {
        match self {
            Run::Marker => c == '#',
            Run::Space => c == ' ',
            Run::Text => c != '\n',
        }
    }

    pub fn test(self, c: char) -> (r: bool)
        ensures
            r == self.admits(c),
    {
        match self {
            Run::Marker => c == '#',
            Run::Space => c == ' ',
            Run::Text => c != '\n',
        }
    }
}

/// The end of the maximal run of characters admitted by `r` that starts at `p`.
pub open spec fn run_end(s: Seq<char>, p: int, r: Run) -> int
    decreases s.len() - p,
{
    if p < 0 || p >= s.len() || !r.admits(s[p]) {
        p
    } else {
        run_end(s, p + 1, r)
    }
}

/// A run stays inside the text, every character in it is admitted, and it
/// stops at the end of the text or at the first character not admitted.
pub proof fn lemma_run_end(s: Seq<char>, p: int, r: Run)
    requires
        0 <= p <= s.len(),
    ensures
        p <= run_end(s, p, r) <= s.len(),
        forall|i: int| p <= i < run_end(s, p, r) ==> r.admits(#[trigger] s[i]),
        run_end(s, p, r) == s.len() || !r.admits(s[run_end(s, p, r)]),
    decreases s.len() - p,
{
    if p < s.len() && r.admits(s[p]) {
        lemma_run_end(s, p + 1, r);
    }
}

/// A stretch of admitted characters lies inside the run that starts with it.
pub proof fn lemma_run_covers(s: Seq<char>, p: int, q: int, r: Run)
    requires
        0 <= p <= q <= s.len(),
        forall|i: int| p <= i < q ==> r.admits(#[trigger] s[i]),
    ensures
        q <= run_end(s, p, r),
    decreases q - p,
{
    if p < q {
        assert(r.admits(s[p]));
        lemma_run_covers(s, p + 1, q, r);
    } else {
        lemma_run_end(s, p, r);
    }
}

/// Starting anywhere inside a run leads to the same end.
pub proof fn lemma_run_end_inside(s: Seq<char>, p: int, q: int, r: Run)
    requires
        0 <= p <= q <= run_end(s, p, r),
    ensures
        run_end(s, q, r) == run_end(s, p, r),
    decreases q - p,
{
    if p < q {
        lemma_run_end_inside(s, p + 1, q, r);
    }
}

/// A cursor over the characters of a text, with one saved position to
/// return to when an attempt to recognise something fails.
pub struct Scanner {
    chars: Vec<char>,
    cursor: usize,
    saved_cursor: usize,
}

impl Scanner {
    pub closed spec fn text(&self) -> Seq<char> {
        self.chars@
    }

    pub closed spec fn pos(&self) -> int {
        self.cursor as int
    }

    pub closed spec fn saved(&self) -> int {
        self.saved_cursor as int
    }

    pub open spec fn wf(&self) -> bool {
        &&& 0 <= self.pos() <= self.text().len()
        &&& 0 <= self.saved() <= self.text().len()
        &&& self.text().len() <= usize::MAX
    }

    pub fn new(input: String) -> (s: Scanner)
        ensures
            s.wf(),
            s.text() == input@,
            s.pos() == 0,
            s.saved() == 0,
    {
        let mut chars: Vec<char> = Vec::new();
        for c in it: input.as_str().chars()
            invariant
                chars@ == it.seq().take(it.index() as int),
        {
            chars.push(c);
        }
        // Every position up to the end of the text is a usize.
        let len = chars.len();
        assert(chars@.len() == len);
        Scanner { chars, cursor: 0, saved_cursor: 0 }
    }

    /// The current position.
    pub fn cursor(&self) -> (r: usize)
        ensures
            r == self.pos(),
    {
        self.cursor
    }

    /// The character under the cursor, or `None` at the end of the text.
    pub fn peek(&self) -> (r: Option<char>)
        requires
            self.wf(),
        ensures
            r == (if self.pos() < self.text().len() {
                Some(self.text()[self.pos()])
            } else {
                None::<char>
            }),
    {
        if self.cursor < self.chars.len() {
            Some(self.chars[self.cursor])
        } else {
            None
        }
    }

    /// Consumes the character under the cursor.
    pub fn advance(&mut self)
        requires
            old(self).wf(),
            old(self).pos() < old(self).text().len(),
        ensures
            final(self).wf(),
            final(self).text() == old(self).text(),
            final(self).saved() == old(self).saved(),
            final(self).pos() == old(self).pos() + 1,
    {
        assert(self.cursor < self.chars.len());
        self.cursor = self.cursor + 1;
    }

    /// Consumes the maximal run of characters admitted by `run`; tells
    /// whether at least one was consumed.
    pub fn take_while(&mut self, run: Run) -> (r: bool)
        requires
            old(self).wf(),
        ensures
            final(self).wf(),
            final(self).text() == old(self).text(),
            final(self).saved() == old(self).saved(),
            final(self).pos() == run_end(old(self).text(), old(self).pos(), run),
            r == (final(self).pos() > old(self).pos()),
    {
        let start = self.cursor;
        proof {
            lemma_run_end(self.chars@, start as int, run);
        }
        while self.cursor < self.chars.len() && run.test(self.chars[self.cursor])
            invariant
                self.wf(),
                self.chars@ == old(self).chars@,
                self.saved_cursor == old(self).saved_cursor,
                start == old(self).cursor,
                start <= self.cursor <= run_end(self.chars@, start as int, run),
                run_end(self.chars@, self.cursor as int, run) == run_end(
                    self.chars@,
                    start as int,
                    run,
                ),
            decreases self.chars.len() - self.cursor,
        {
            proof {
                lemma_run_end(self.chars@, self.cursor + 1, run);
            }
            self.advance();
        }
        self.cursor > start
    }

    /// Remembers the current position.
    pub fn save_cursor(&mut self)
        requires
            old(self).wf(),
        ensures
            final(self).wf(),
            final(self).text() == old(self).text(),
            final(self).pos() == old(self).pos(),
            final(self).saved() == old(self).pos(),
    {
        self.saved_cursor = self.cursor;
    }

    /// Returns to the remembered position.
    pub fn restore_cursor(&mut self)
        requires
            old(self).wf(),
        ensures
            final(self).wf(),
            final(self).text() == old(self).text(),
            final(self).pos() == old(self).saved(),
            final(self).saved() == old(self).saved(),
    {
        self.cursor = self.saved_cursor;
    }
}

} // verus!
