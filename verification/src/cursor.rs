//! The position model: file contents split into lines, character cursors,
//! spans, and the mutable cursor used by the lexer.

use vstd::prelude::*;
use vstd::string::StrSliceExecFns;
use std::rc::Rc;

verus! {

/// Holds the contents of a file, split into its lines (without the
/// terminating newline characters).
#[derive(Debug)]
pub struct FileContents(pub Vec<String>);

/// The lines joined back together with one `'\n'` between consecutive lines.
pub open spec fn join_lines(lines: Seq<Seq<char>>) -> Seq<char>
    decreases lines.len(),
{
    if lines.len() == 0 {
        Seq::empty()
    } else if lines.len() == 1 {
        lines[0]
    } else {
        lines[0].push('\n') + join_lines(lines.drop_first())
    }
}

/// The character stream of a file: every line, including the last one,
/// followed by one `'\n'`.
pub open spec fn stream_of(lines: Seq<Seq<char>>) -> Seq<char>
    decreases lines.len(),
{
    if lines.len() == 0 {
        Seq::empty()
    } else {
        lines[0].push('\n') + stream_of(lines.drop_first())
    }
}

/// The offset into `stream_of(lines)` at which line `k` begins.
pub open spec fn line_start(lines: Seq<Seq<char>>, k: int) -> int
    decreases k,
{
    if k <= 0 {
        0
    } else {
        lines[0].len() + 1 + line_start(lines.drop_first(), k - 1)
    }
}

/// Every line occupies its length plus one slot (its newline) in the stream.
pub proof fn lemma_stream_len(lines: Seq<Seq<char>>)
    ensures
        stream_of(lines).len() == line_start(lines, lines.len() as int),
    decreases lines.len(),
{
    if lines.len() > 0 {
        lemma_stream_len(lines.drop_first());
    }
}

/// Within line `k`, slot `j` of the stream holds the line's character `j`,
/// or the line's newline when `j` is the line's length.
pub proof fn lemma_stream_index(lines: Seq<Seq<char>>, k: int, j: int)
    requires
        0 <= k < lines.len(),
        0 <= j <= lines[k].len(),
    ensures
        0 <= line_start(lines, k) + j < stream_of(lines).len(),
        stream_of(lines)[line_start(lines, k) + j] == (if j < lines[k].len() {
            lines[k][j]
        } else {
            '\n'
        }),
    decreases k,
{
    lemma_stream_len(lines);
    lemma_line_start_bounds(lines, k + 1);
    if k == 0 {
        lemma_line_start_nonneg(lines.drop_first(), lines.len() - 1);
        lemma_stream_len(lines.drop_first());
    } else {
        lemma_stream_index(lines.drop_first(), k - 1, j);
    }
}

/// `line_start` is never negative.
pub proof fn lemma_line_start_nonneg(lines: Seq<Seq<char>>, k: int)
    ensures
        line_start(lines, k) >= 0,
    decreases k,
{
    if k > 0 {
        lemma_line_start_nonneg(lines.drop_first(), k - 1);
    }
}

/// Moving the start index one line forward adds that line's stream width.
pub proof fn lemma_line_start_succ(lines: Seq<Seq<char>>, k: int)
    requires
        0 <= k < lines.len(),
    ensures
        line_start(lines, k + 1) == line_start(lines, k) + lines[k].len() + 1,
    decreases k,
{
    if k > 0 {
        lemma_line_start_succ(lines.drop_first(), k - 1);
        assert(lines.drop_first()[k - 1] == lines[k]);
    } else {
        assert(line_start(lines.drop_first(), 0) == 0);
        assert(line_start(lines, 0) == 0);
    }
}

/// `line_start` grows with the line index, by at least one slot per line.
pub proof fn lemma_line_start_bounds(lines: Seq<Seq<char>>, k: int)
    requires
        0 <= k <= lines.len(),
    ensures
        line_start(lines, k) <= line_start(lines, lines.len() as int) - (lines.len() - k),
    decreases lines.len() - k,
{
    if k < lines.len() {
        lemma_line_start_succ(lines, k);
        lemma_line_start_bounds(lines, k + 1);
    }
}

impl FileContents {
    /// The lines as mathematical sequences of characters.
    pub open spec fn lines(&self) -> Seq<Seq<char>> {
        self.0.deep_view()
    }

    /// A well-formed split: at least one line, no line contains a newline,
    /// and every line is short enough for 16-bit column numbers.
    pub open spec fn wf(&self) -> bool {
        &&& 1 <= self.lines().len() <= 65001
        &&& forall|i: int|
            0 <= i < self.lines().len() ==> (#[trigger] self.lines()[i]).len() <= 65000
                && !self.lines()[i].contains('\n')
    }

    /// Decides [`FileContents::wf`] at run time.
    #[verifier::loop_isolation(false)]
    pub fn check_wf(&self) -> (r: bool)
        ensures
            r == self.wf(),
    {
        let n = self.0.len();
        if n == 0 || n > 65001 {
            return false;
        }
        let mut i: usize = 0;
        while i < n
            invariant
                i <= n,
                n == self.0@.len(),
                forall|k: int|
                    0 <= k < i ==> (#[trigger] self.lines()[k]).len() <= 65000
                        && !self.lines()[k].contains('\n'),
            decreases n - i,
        {
            proof {
                assert(self.lines()[i as int] == self.0@[i as int]@);
            }
            if !line_ok(&self.0[i]) {
                return false;
            }
            i += 1;
        }
        true
    }

    /// Splits `contents` at every `'\n'`.
    pub fn new(contents: &str) -> (r: Self)
        ensures
            r.lines().len() >= 1,
            join_lines(r.lines()) == contents@,
            forall|i: int| 0 <= i < r.lines().len() ==> !(#[trigger] r.lines()[i]).contains('\n'),
    {
        let n = contents.unicode_len();
        let mut lines: Vec<String> = Vec::new();
        let mut cur: String = String::new();
        let mut i: usize = 0;
        while i < n
            invariant
                i <= n,
                n == contents@.len(),
                join_lines(lines.deep_view().push(cur@)) == contents@.take(i as int),
                forall|k: int|
                    0 <= k < lines.deep_view().len() ==> !(#[trigger] lines.deep_view()[k]).contains(
                    '\n'),
                !cur@.contains('\n'),
            decreases n - i,
        {
            let c = contents.get_char(i);
            proof {
                lemma_join_push(lines.deep_view(), cur@);
                assert(contents@.take(i + 1) == contents@.take(i as int).push(c));
            }
            if c == '\n' {
                let ghost old_lines = lines.deep_view();
                let ghost old_cur = cur@;
                lines.push(cur);
                cur = String::new();
                proof {
                    assert(lines.deep_view() =~= old_lines.push(old_cur));
                    lemma_join_push(lines.deep_view(), cur@);
                }
            } else {
                let ghost old_cur = cur@;
                cur.push(c);
                proof {
                    assert(cur@ == old_cur.push(c));
                    lemma_join_push(lines.deep_view(), cur@);
                }
            }
            i += 1;
        }
        let ghost old_lines = lines.deep_view();
        let ghost old_cur = cur@;
        lines.push(cur);
        proof {
            assert(contents@.take(n as int) == contents@);
            assert(lines.deep_view() =~= old_lines.push(old_cur));
        }
        FileContents(lines)
    }
}

/// Whether one line is usable by the position model: short enough for
/// 16-bit columns and free of newlines.
#[verifier::loop_isolation(false)]
fn line_ok(line: &String) -> (r: bool)
    ensures
        r == (line@.len() <= 65000 && !line@.contains('\n')),
{
    let n = line.as_str().unicode_len();
    if n > 65000 {
        return false;
    }
    let mut i: usize = 0;
    while i < n
        invariant
            i <= n,
            n == line@.len(),
            forall|k: int| 0 <= k < i ==> line@[k] != '\n',
        decreases n - i,
    {
        if line.as_str().get_char(i) == '\n' {
            return false;
        }
        i += 1;
    }
    proof {
        if line@.contains('\n') {
            let w = choose|w: int| 0 <= w < line@.len() && line@[w] == '\n';
            assert(false);
        }
    }
    true
}

/// Relies on `Rc::clone`: returns a second handle to the same allocation,
/// so the handed-out value equals the argument.
#[verifier::external_body]
fn rc_dup<T>(v: &Rc<T>) -> (r: Rc<T>)
    ensures
        r == *v,
{
    Rc::clone(v)
}

/// Tracks the position of a character in a file: 1-based line and column
/// numbers into a shared, immutable [`FileContents`].
#[derive(Debug)]
pub struct Cursor {
    pub file_name: Rc<String>,
    pub file_contents: Rc<FileContents>,
    pub ln: u16,
    pub ln_idx: u16,
}

impl Cursor {
    /// The lines of the file the cursor points into.
    pub open spec fn lines(&self) -> Seq<Seq<char>> {
        self.file_contents.lines()
    }

    /// The file's character stream: every line followed by one newline.
    pub open spec fn stream(&self) -> Seq<char> {
        stream_of(self.lines())
    }

    /// The line the cursor currently stands on.
    pub open spec fn cur_line(&self) -> Seq<char> {
        self.lines()[self.ln - 1]
    }

    /// Well-formed: the line number indexes a line, and the column lies
    /// between the line's first character and its newline slot.
    pub open spec fn wf(&self) -> bool {
        &&& self.file_contents.wf()
        &&& 1 <= self.ln <= self.lines().len()
        &&& 1 <= self.ln_idx <= self.cur_line().len() + 1
    }

    /// The cursor's offset into the character stream.
    pub open spec fn offset(&self) -> int {
        line_start(self.lines(), self.ln - 1) + self.ln_idx - 1
    }

    /// Whether the cursor stands on the final newline of the file.
    pub open spec fn at_end(&self) -> bool {
        self.ln == self.lines().len() && self.ln_idx == self.cur_line().len() + 1
    }

    /// The character under the cursor: a character of the current line, the
    /// line's newline when the column is one past the line's length, and
    /// nothing outside those bounds.
    pub open spec fn char_at(&self) -> Option<char> {
        if 1 <= self.ln <= self.lines().len() && 1 <= self.ln_idx {
            if self.ln_idx <= self.cur_line().len() {
                Some(self.cur_line()[self.ln_idx - 1])
            } else if self.ln_idx == self.cur_line().len() + 1 {
                Some('\n')
            } else {
                None
            }
        } else {
            None
        }
    }

    /// The state and character one step forward: the next column of the
    /// current line, the first column of the next line, or — at the end of
    /// the file — the unchanged state and no character.
    pub open spec fn adv_spec(self) -> (Cursor, Option<char>) {
        if self.ln_idx <= self.cur_line().len() {
            let c2 = Cursor { ln_idx: (self.ln_idx + 1) as u16, ..self };
            (c2, c2.char_at())
        } else if self.ln < self.lines().len() {
            let c2 = Cursor { ln: (self.ln + 1) as u16, ln_idx: 1, ..self };
            (c2, c2.char_at())
        } else {
            (self, None)
        }
    }

    /// The state and character one step backward: the exact inverse of
    /// [`Cursor::adv_spec`], with no character at the start of the file.
    pub open spec fn rev_spec(self) -> (Cursor, Option<char>) {
        if self.ln_idx > 1 {
            let c2 = Cursor { ln_idx: (self.ln_idx - 1) as u16, ..self };
            (c2, c2.char_at())
        } else if self.ln > 1 {
            let c2 = Cursor {
                ln: (self.ln - 1) as u16,
                ln_idx: (self.lines()[self.ln - 2].len() + 1) as u16,
                ..self
            };
            (c2, c2.char_at())
        } else {
            (self, None)
        }
    }

    pub fn new(file_name: String, contents: &str) -> (r: Self)
        requires
            contents@.len() <= 64999,
        ensures
            r.wf(),
            r.file_name@ == file_name@,
            r.ln == 1 && r.ln_idx == 1,
            join_lines(r.lines()) == contents@,
    {
        let fc = FileContents::new(contents);
        proof {
            lemma_join_bounds(fc.lines());
        }
        Self { file_name: Rc::new(file_name), file_contents: Rc::new(fc), ln: 1, ln_idx: 1 }
    }

    /// Decides [`Cursor::wf`] at run time.
    pub fn check_wf(&self) -> (r: bool)
        ensures
            r == self.wf(),
    {
        if !self.file_contents.check_wf() {
            return false;
        }
        if !(self.ln >= 1 && (self.ln as usize) <= self.file_contents.0.len()) {
            return false;
        }
        proof {
            assert(self.cur_line() == self.file_contents.0@[self.ln - 1]@);
        }
        let line = &self.file_contents.0[self.ln as usize - 1];
        let len = line.as_str().unicode_len();
        self.ln_idx >= 1 && (self.ln_idx as usize) <= len + 1
    }

    /// The text of the line the cursor stands on, when the line number is in
    /// bounds.
    pub fn get_ln(&self) -> (r: Option<&String>)
        ensures
            match r {
                Some(l) => 1 <= self.ln <= self.lines().len() && l@ == self.cur_line(),
                None => !(1 <= self.ln <= self.lines().len()),
            },
    {
        if self.ln >= 1 && (self.ln as usize) <= self.file_contents.0.len() {
            Some(&self.file_contents.0[self.ln as usize - 1])
        } else {
            None
        }
    }

    /// Duplicates the cursor; the file contents stay shared.
    pub fn dupe(&self) -> (r: Self)
        ensures
            r == *self,
    {
        Self {
            file_name: rc_dup(&self.file_name),
            file_contents: rc_dup(&self.file_contents),
            ln: self.ln,
            ln_idx: self.ln_idx,
        }
    }

    /// The character under the cursor, per [`Cursor::char_at`].
    pub fn get_char(&self) -> (r: Option<char>)
        ensures
            r == self.char_at(),
    {
        match self.get_ln() {
            None => None,
            Some(line) => {
                let n = line.as_str().unicode_len();
                let idx = self.ln_idx as usize;
                if 1 <= idx && idx <= n {
                    Some(line.as_str().get_char(idx - 1))
                } else if idx >= 1 && idx - 1 == n {
                    Some('\n')
                } else {
                    None
                }
            },
        }
    }

    /// Steps one character forward and returns the character stepped onto,
    /// or nothing at the end of the file (the state is then unchanged).
    pub fn advance(&mut self) -> (r: Option<char>)
        requires
            old(self).wf(),
        ensures
            final(self).wf(),
            (*final(self), r) == old(self).adv_spec(),
    {
        let line_len = match self.get_ln() {
            Some(l) => l.as_str().unicode_len(),
            None => 0,
        };
        if (self.ln_idx as usize) <= line_len {
            self.ln_idx = self.ln_idx + 1;
        } else {
            if (self.ln as usize) == self.file_contents.0.len() {
                return None;
            }
            self.ln = self.ln + 1;
            self.ln_idx = 1;
        }
        self.get_char()
    }

    /// Steps one character backward and returns the character stepped onto,
    /// or nothing at the start of the file (the state is then unchanged).
    pub fn revance(&mut self) -> (r: Option<char>)
        requires
            old(self).wf(),
        ensures
            final(self).wf(),
            (*final(self), r) == old(self).rev_spec(),
    {
        if self.ln_idx > 1 {
            self.ln_idx = self.ln_idx - 1;
        } else {
            if self.ln == 1 {
                return None;
            }
            self.ln = self.ln - 1;
            let line_len = match self.get_ln() {
                Some(l) => l.as_str().unicode_len(),
                None => 0,
            };
            self.ln_idx = (line_len + 1) as u16;
        }
        self.get_char()
    }
}

/// A well-formed cursor's offset lies inside the stream, the character under
/// the cursor is the stream character at that offset, and the cursor stands
/// on the final newline exactly when the offset is the last one.
pub proof fn lemma_cursor_stream(c: Cursor)
    requires
        c.wf(),
    ensures
        0 <= c.offset() < c.stream().len(),
        c.char_at() == Some(c.stream()[c.offset()]),
        c.at_end() <==> c.offset() == c.stream().len() - 1,
{
    let lines = c.lines();
    let n = lines.len() as int;
    lemma_stream_len(lines);
    lemma_stream_index(lines, c.ln - 1, c.ln_idx - 1);
    lemma_line_start_nonneg(lines, c.ln - 1);
    lemma_line_start_succ(lines, n - 1);
    lemma_line_start_bounds(lines, c.ln as int);
    if !(c.ln == n && c.ln_idx == c.cur_line().len() + 1) {
        lemma_line_start_succ(lines, c.ln - 1);
    }
}

/// One step forward from a well-formed cursor moves the offset up by one and
/// returns that stream character; at the end of the file it changes nothing.
pub proof fn lemma_adv_stream(c: Cursor)
    requires
        c.wf(),
    ensures
        !c.at_end() ==> {
            &&& c.adv_spec().0.wf()
            &&& c.adv_spec().0.offset() == c.offset() + 1
            &&& c.adv_spec().0.lines() == c.lines()
            &&& c.adv_spec().1 == Some(c.stream()[c.offset() + 1])
        },
        c.at_end() ==> c.adv_spec() == (c, None::<char>),
{
    lemma_cursor_stream(c);
    if !c.at_end() {
        let c2 = c.adv_spec().0;
        if c.ln_idx <= c.cur_line().len() {
            assert(c2.wf());
        } else {
            assert(c.ln < c.lines().len());
            lemma_line_start_succ(c.lines(), c.ln - 1);
            assert(c2.wf());
        }
        lemma_cursor_stream(c2);
    }
}

/// One step backward from a well-formed cursor moves the offset down by one
/// and returns that stream character; at the start it changes nothing.
pub proof fn lemma_rev_stream(c: Cursor)
    requires
        c.wf(),
    ensures
        c.offset() > 0 ==> {
            &&& c.rev_spec().0.wf()
            &&& c.rev_spec().0.offset() == c.offset() - 1
            &&& c.rev_spec().0.lines() == c.lines()
            &&& c.rev_spec().1 == Some(c.stream()[c.offset() - 1])
        },
        c.offset() == 0 ==> c.rev_spec() == (c, None::<char>),
{
    lemma_cursor_stream(c);
    lemma_line_start_nonneg(c.lines(), c.ln - 1);
    if c.ln_idx == 1 && c.ln > 1 {
        lemma_line_start_succ(c.lines(), c.ln - 2);
        lemma_line_start_nonneg(c.lines(), c.ln - 2);
    }
    if c.offset() > 0 {
        let c2 = c.rev_spec().0;
        if c.ln_idx > 1 {
            assert(c2.wf());
        } else {
            assert(c.ln > 1);
            assert(c2.wf());
        }
        lemma_cursor_stream(c2);
    } else {
        if c.ln_idx > 1 {
        } else if c.ln > 1 {
            assert(false);
        }
    }
}

/// Stepping backward right after a successful step forward restores the
/// cursor exactly, and lands back on the character the cursor started from.
pub proof fn lemma_advance_then_revance(c: Cursor)
    requires
        c.wf(),
        c.adv_spec().1 is Some,
    ensures
        c.adv_spec().0.rev_spec().0 == c,
        c.adv_spec().0.rev_spec().1 == c.char_at(),
{
    let c2 = c.adv_spec().0;
    if c.ln_idx <= c.cur_line().len() {
        assert(c2.rev_spec().0 == c);
    } else {
        assert(c.ln < c.lines().len());
        assert(c2.ln == c.ln + 1 && c2.ln_idx == 1);
        assert(c2.rev_spec().0 == c);
    }
}

/// A full position of a string of characters in a file: the span from a
/// start cursor to an end cursor, both inclusive.
#[derive(Debug)]
pub struct Position(pub Cursor, pub Cursor);

impl Position {
    /// Merges with another position: the result spans from this position's
    /// start to the other position's end.
    pub fn combine(&self, other: &Position) -> (r: Self)
        ensures
            r.0 == self.0,
            r.1 == other.1,
    {
        Position(self.0.dupe(), other.1.dupe())
    }

    /// A span within a single line of text: from column `range.0` to column
    /// `range.1`, or from the first to the last column of the line.
    pub fn new_oneline(file_name: &str, line: &str, range: Option<(u16, u16)>) -> (r: Self)
        requires
            line@.len() <= 64999,
            !line@.contains('\n'),
            match range {
                Some((a, b)) => 1 <= a && a <= b && b <= line@.len() + 1,
                None => line@.len() >= 1,
            },
        ensures
            r.0.wf() && r.1.wf(),
            r.0.lines() == seq![line@] && r.1.lines() == seq![line@],
            r.0.file_name@ == file_name@ && r.1.file_name@ == file_name@,
            r.0.ln == 1 && r.1.ln == 1,
            match range {
                Some((a, b)) => r.0.ln_idx == a && r.1.ln_idx == b,
                None => r.0.ln_idx == 1 && r.1.ln_idx == line@.len(),
            },
    {
        let mut start = Cursor::new(file_name.to_owned(), line);
        proof {
            lemma_join_single(start.lines(), line@);
        }
        let mut end = start.dupe();

        start.ln_idx = match range {
            Some(x) => x.0,
            None => 1,
        };
        end.ln_idx = match range {
            Some(x) => x.1,
            None => line.unicode_len() as u16,
        };

        Position(start, end)
    }

    /// A single-point position at the given cursor.
    pub fn from_cursor(cursor: Cursor) -> (r: Self)
        ensures
            r.0 == cursor,
            r.1 == cursor,
    {
        let d = cursor.dupe();
        Position(d, cursor)
    }
}

/// A text without newlines splits into exactly itself: joining several
/// newline-free lines would reintroduce a newline.
pub proof fn lemma_join_single(lines: Seq<Seq<char>>, text: Seq<char>)
    requires
        lines.len() >= 1,
        join_lines(lines) == text,
        !text.contains('\n'),
        forall|i: int| 0 <= i < lines.len() ==> !(#[trigger] lines[i]).contains('\n'),
    ensures
        lines =~= seq![text],
{
    if lines.len() >= 2 {
        let joined = join_lines(lines);
        assert(joined == lines[0].push('\n') + join_lines(lines.drop_first()));
        assert(joined[lines[0].len() as int] == '\n');
        assert(joined.contains('\n'));
        assert(false);
    }
}

/// A mutable cursor for the lexer: the span of the token being read
/// (`pos_start` to `pos_end`) and the character most recently stepped onto.
#[derive(Debug)]
pub struct MutCursor {
    pub pos_start: Cursor,
    pub pos_end: Cursor,
    pub current_char: Option<char>,
}

impl MutCursor {
    /// Constructs a new mutable cursor with an empty span at `pos_start`.
    pub fn new(pos_start: Cursor) -> (r: Self)
        ensures
            r.pos_start == pos_start,
            r.pos_end == pos_start,
            r.current_char is None,
    {
        let d = pos_start.dupe();
        Self { pos_start: d, pos_end: pos_start, current_char: None }
    }

    /// Constructs an immutable position from the `MutCursor`'s span.
    pub fn position(&self) -> (r: Position)
        ensures
            r.0 == self.pos_start,
            r.1 == self.pos_end,
    {
        Position(self.pos_start.dupe(), self.pos_end.dupe())
    }

    /// Spawns a child `MutCursor` starting where this one currently stands.
    pub fn spawn(&self) -> (r: Self)
        ensures
            r.pos_start == self.pos_end,
            r.pos_end == self.pos_end,
            r.current_char == self.current_char,
    {
        Self {
            pos_start: self.pos_end.dupe(),
            pos_end: self.pos_end.dupe(),
            current_char: self.current_char,
        }
    }

    /// Updates the end of the `MutCursor`'s span.
    pub fn update(&mut self, cursor: Cursor)
        ensures
            final(self).pos_end == cursor,
            final(self).pos_start == old(self).pos_start,
            final(self).current_char == old(self).current_char,
    {
        self.pos_end = cursor;
    }

    /// Advances the span's end one character forward through the file,
    /// remembering the character stepped onto.
    pub fn advance(&mut self)
        requires
            old(self).pos_end.wf(),
        ensures
            final(self).pos_end == old(self).pos_end.adv_spec().0,
            final(self).current_char == old(self).pos_end.adv_spec().1,
            final(self).pos_start == old(self).pos_start,
            final(self).pos_end.wf(),
    {
        let mut cursor = self.pos_end.dupe();
        self.current_char = cursor.advance();
        self.update(cursor);
    }

    /// Steps the span's end one character backward through the file.
    pub fn revance(&mut self)
        requires
            old(self).pos_end.wf(),
        ensures
            final(self).pos_end == old(self).pos_end.rev_spec().0,
            final(self).current_char == old(self).pos_end.rev_spec().1,
            final(self).pos_start == old(self).pos_start,
            final(self).pos_end.wf(),
    {
        let mut cursor = self.pos_end.dupe();
        self.current_char = cursor.revance();
        self.update(cursor);
    }
}

/// A text of length `n` splits into at most `n + 1` lines, none longer than
/// the text itself.
pub proof fn lemma_join_bounds(lines: Seq<Seq<char>>)
    requires
        lines.len() >= 1,
    ensures
        lines.len() <= join_lines(lines).len() + 1,
        forall|i: int|
            0 <= i < lines.len() ==> (#[trigger] lines[i]).len() <= join_lines(lines).len(),
    decreases lines.len(),
{
    if lines.len() > 1 {
        lemma_join_bounds(lines.drop_first());
        assert(join_lines(lines) == lines[0].push('\n') + join_lines(lines.drop_first()));
        assert(join_lines(lines).len() == lines[0].len() + 1 + join_lines(
            lines.drop_first()).len());
        assert forall|i: int| 0 <= i < lines.len() implies (#[trigger] lines[i]).len()
            <= join_lines(lines).len() by {
            if i >= 1 {
                assert(lines[i] == lines.drop_first()[i - 1]);
            }
        }
    }
}

/// Appending one more line extends the joined text by a newline and the line,
/// except for the very first line.
pub proof fn lemma_join_push(lines: Seq<Seq<char>>, l: Seq<char>)
    ensures
        join_lines(lines.push(l)) == if lines.len() == 0 {
            l
        } else {
            join_lines(lines).push('\n') + l
        },
    decreases lines.len(),
{
    if lines.len() == 0 {
        assert(lines.push(l)[0] == l);
        assert(lines.push(l).len() == 1);
    } else {
        lemma_join_push(lines.drop_first(), l);
        assert(lines.push(l).drop_first() == lines.drop_first().push(l));
        if lines.len() == 1 {
            assert(join_lines(lines) == lines[0]);
            assert(lines.push(l)[0] == lines[0]);
            assert(join_lines(lines.push(l)) == lines[0].push('\n') + l);
        } else {
            assert(lines.push(l)[0] == lines[0]);
            assert(join_lines(lines.push(l)) == lines[0].push('\n') + join_lines(
                lines.drop_first().push(l)));
            assert(lines[0].push('\n') + (join_lines(lines.drop_first()).push('\n') + l) == (
            lines[0].push('\n') + join_lines(lines.drop_first())).push('\n') + l);
        }
    }
}

} // verus!
