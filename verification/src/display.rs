//! Rendering a [`CompileError`] as a source-quoting report: header, location,
//! quoted (and possibly trimmed) source line, and a caret underline.

use vstd::prelude::*;
use vstd::string::StrSliceExecFns;
use vstd::string::StringExecFns;
use crate::diagnostic::CompileError;

verus! {

/// `n` copies of the character `c`.
pub open spec fn repeat_char(c: char, n: int) -> Seq<char> {
    Seq::new(
        if n >= 0 {
            n as nat
        } else {
            0
        },
        |i| c,
    )
}

/// How many characters of context are kept around a span before the quoted
/// line is trimmed.
pub const LINE_LIMIT: u8 = 24;

/// How much to cut so that at most [`LINE_LIMIT`] characters lie between
/// `desired` and the kept part of the line; the three extra characters make
/// room for the ellipsis marker.
pub open spec fn spec_cal_trim(actual: int, desired: int) -> int {
    let dif = if actual >= desired {
        actual - desired
    } else {
        0
    };
    if dif > LINE_LIMIT as int {
        dif - LINE_LIMIT as int + 3
    } else {
        0
    }
}

fn cal_trim(actual: u16, desired: u16) -> (r: u16)
    ensures
        r == spec_cal_trim(actual as int, desired as int),
{
    let dif = if actual >= desired {
        actual - desired
    } else {
        0
    };
    if dif > LINE_LIMIT as u16 {
        dif - LINE_LIMIT as u16 + 3
    } else {
        0
    }
}

/// The message with every newline shown as a visible `\n` escape instead of
/// a real line break.
pub open spec fn escape_nl(s: Seq<char>) -> Seq<char>
    decreases s.len(),
{
    if s.len() == 0 {
        Seq::empty()
    } else if s[0] == '\n' {
        seq!['\\', 'n'] + escape_nl(s.drop_first())
    } else {
        seq![s[0]] + escape_nl(s.drop_first())
    }
}

/// Escaping distributes over appending one character.
pub proof fn lemma_escape_push(s: Seq<char>, c: char)
    ensures
        escape_nl(s.push(c)) == escape_nl(s) + (if c == '\n' {
            seq!['\\', 'n']
        } else {
            seq![c]
        }),
    decreases s.len(),
{
    let tail: Seq<char> = if c == '\n' {
        seq!['\\', 'n']
    } else {
        seq![c]
    };
    if s.len() == 0 {
        assert(s.push(c)[0] == c);
        assert(s.push(c).drop_first() =~= Seq::<char>::empty());
        assert(escape_nl(s.push(c).drop_first()) == Seq::<char>::empty());
        assert(escape_nl(s.push(c)) =~= tail);
    } else {
        lemma_escape_push(s.drop_first(), c);
        assert(s.push(c)[0] == s[0]);
        assert(s.push(c).drop_first() =~= s.drop_first().push(c));
        let head: Seq<char> = if s[0] == '\n' {
            seq!['\\', 'n']
        } else {
            seq![s[0]]
        };
        assert(escape_nl(s.push(c)) == head + (escape_nl(s.drop_first()) + tail));
        assert(head + (escape_nl(s.drop_first()) + tail) == (head + escape_nl(s.drop_first()))
            + tail);
    }
}

/// Appends `msg` to `out` with newlines escaped.
fn push_escaped(out: &mut String, msg: &str)
    ensures
        final(out)@ == old(out)@ + escape_nl(msg@),
{
    let n = msg.unicode_len();
    let mut i: usize = 0;
    while i < n
        invariant
            i <= n,
            n == msg@.len(),
            out@ == old(out)@ + escape_nl(msg@.take(i as int)),
        decreases n - i,
    {
        let c = msg.get_char(i);
        proof {
            lemma_escape_push(msg@.take(i as int), c);
            assert(msg@.take(i + 1) == msg@.take(i as int).push(c));
        }
        if c == '\n' {
            out.push('\\');
            out.push('n');
        } else {
            out.push(c);
        }
        i += 1;
    }
    proof {
        assert(msg@.take(n as int) == msg@);
    }
}

/// Appends `n` copies of `c` to `out`.
fn push_repeat(out: &mut String, c: char, n: u16)
    ensures
        final(out)@ == old(out)@ + repeat_char(c, n as int),
{
    let mut i: u16 = 0;
    while i < n
        invariant
            i <= n,
            out@ == old(out)@ + repeat_char(c, i as int),
        decreases n - i,
    {
        out.push(c);
        proof {
            assert(repeat_char(c, i + 1 as int) =~= repeat_char(c, i as int).push(c));
        }
        i += 1;
    }
}

/// The decimal digits of `n`, most significant first.
pub open spec fn dec_str(n: int) -> Seq<char>
    decreases n,
{
    if n <= 9 {
        seq![digit_char(n)]
    } else {
        dec_str(n / 10).push(digit_char(n % 10))
    }
}

/// The character for one decimal digit.
pub open spec fn digit_char(d: int) -> char {
    if d == 0 {
        '0'
    } else if d == 1 {
        '1'
    } else if d == 2 {
        '2'
    } else if d == 3 {
        '3'
    } else if d == 4 {
        '4'
    } else if d == 5 {
        '5'
    } else if d == 6 {
        '6'
    } else if d == 7 {
        '7'
    } else if d == 8 {
        '8'
    } else {
        '9'
    }
}

fn exec_digit_char16(d: u16) -> (r: char)
    requires
        d <= 9,
    ensures
        r == digit_char(d as int),
{
    if d == 0 {
        '0'
    } else if d == 1 {
        '1'
    } else if d == 2 {
        '2'
    } else if d == 3 {
        '3'
    } else if d == 4 {
        '4'
    } else if d == 5 {
        '5'
    } else if d == 6 {
        '6'
    } else if d == 7 {
        '7'
    } else if d == 8 {
        '8'
    } else {
        '9'
    }
}

/// Appends the decimal digits of `n` to `out`.
fn push_dec(out: &mut String, n: u16)
    ensures
        final(out)@ == old(out)@ + dec_str(n as int),
    decreases n,
{
    if n <= 9 {
        out.push(exec_digit_char16(n));
        proof {
            assert(old(out)@ + dec_str(n as int) =~= old(out)@.push(digit_char(n as int)));
        }
    } else {
        push_dec(out, n / 10);
        out.push(exec_digit_char16(n % 10));
        proof {
            assert(old(out)@ + dec_str(n as int) =~= (old(out)@ + dec_str(n as int / 10)).push(
                digit_char(n as int % 10)));
        }
    }
}

/// The decimal form of a 32-bit number as a string.
pub fn dec_string(n: u32) -> (r: String)
    ensures
        r@ == dec_str(n as int),
    decreases n,
{
    if n <= 9 {
        let mut s = String::new();
        s.push(exec_digit_char16((n % 10) as u16));
        proof {
            assert(Seq::<char>::empty() + dec_str(n as int) =~= dec_str(n as int));
            assert(Seq::<char>::empty().push(digit_char(n as int)) =~= seq![
                digit_char(n as int),
            ]);
        }
        s
    } else {
        let mut s = dec_string(n / 10);
        s.push(exec_digit_char16((n % 10) as u16));
        proof {
            assert(dec_str(n as int) =~= dec_str(n as int / 10).push(digit_char(n as int % 10)));
        }
        s
    }
}

/// The number of decimal digits of `n`.
fn dec_len(n: u16) -> (r: u16)
    ensures
        r == dec_str(n as int).len(),
        n < 100 ==> r <= 2,
        n < 1000 ==> r <= 3,
        n < 10000 ==> r <= 4,
        r <= 5,
    decreases n,
{
    if n <= 9 {
        1
    } else {
        1 + dec_len(n / 10)
    }
}

/// How many spaces stand before the carets of an underline: the span's start
/// column, adjusted for what was trimmed off the front of the quoted line
/// and for the ellipsis marker standing in for it.
pub open spec fn spec_arrw_spaces(start_idx: int, start_trim: int) -> int {
    if start_trim > 0 {
        start_idx - start_trim + 2
    } else {
        start_idx - 1
    }
}

/// An underline: spaces up to the span's start, one caret per spanned
/// character (plus `extra` carets), a space, and the escaped message.
pub open spec fn spec_arrw(
    start_idx: int,
    end_idx: int,
    msg: Seq<char>,
    start_trim: int,
    extra: int,
) -> Seq<char> {
    repeat_char(' ', spec_arrw_spaces(start_idx, start_trim)) + repeat_char(
        '^',
        end_idx - start_idx + 1 + extra,
    ) + seq![' '] + escape_nl(msg)
}

fn gen_arrw(start_idx: u16, end_idx: u16, msg: &str, start_trim: u16, extra: u16) -> (r: String)
    requires
        1 <= start_idx,
        start_trim <= start_idx,
        start_idx <= end_idx,
        end_idx <= 65001,
        extra <= 5,
    ensures
        r@ == spec_arrw(start_idx as int, end_idx as int, msg@, start_trim as int, extra as int),
{
    let spaces = if start_trim > 0 {
        start_idx - start_trim + 2
    } else {
        start_idx - 1
    };
    let mut out = String::new();
    push_repeat(&mut out, ' ', spaces);
    push_repeat(&mut out, '^', end_idx - start_idx + 1 + extra);
    out.push(' ');
    push_escaped(&mut out, msg);
    proof {
        assert(out@ =~= spec_arrw(
            start_idx as int,
            end_idx as int,
            msg@,
            start_trim as int,
            extra as int,
        ));
    }
    out
}

/// The quoted form of `line` for a span from column `start_idx` to column
/// `end_idx`: trimmed at either end where the context exceeds
/// [`LINE_LIMIT`], with ellipsis markers for what was cut, and a marker for
/// a span that runs past the end of the line.
pub open spec fn spec_sample(line: Seq<char>, start_idx: int, end_idx: int, multi: bool) -> Seq<
    char,
> {
    let st = spec_cal_trim(start_idx, 0);
    let et = spec_cal_trim(line.len() as int, end_idx);
    let core = line.subrange(st, line.len() - et);
    let with_lead = if st != 0 {
        seq!['.', '.', '.'] + core
    } else {
        core
    };
    let with_trail = if et != 0 {
        with_lead + seq!['.', '.', '.']
    } else {
        with_lead
    };
    if multi {
        with_trail + seq!['\\', 'n', '.', '.', '.']
    } else {
        with_trail
    }
}

/// Builds the quoted line and its underline for one span.
fn sample(line: &str, start_idx: u16, end_idx: u16, msg: &str, multi_line: bool) -> (r: (
    String,
    String,
))
    requires
        line@.len() <= 65000,
        1 <= start_idx <= line@.len() + 1,
        start_idx <= end_idx <= 65001,
    ensures
        r.0@ == spec_sample(line@, start_idx as int, end_idx as int, multi_line),
        r.1@ == spec_arrw(
            start_idx as int,
            end_idx as int,
            msg@,
            spec_cal_trim(start_idx as int, 0),
            if multi_line {
                5int
            } else {
                0int
            },
        ),
{
    let len = line.unicode_len();
    let start_trim = cal_trim(start_idx, 0);
    let end_trim = cal_trim(len as u16, end_idx);
    let core = line.substring_char(start_trim as usize, len - end_trim as usize);

    let mut text = String::new();
    if start_trim != 0 {
        text.append("...");
    }
    text.append(core);
    if end_trim != 0 {
        text.append("...");
    }
    if multi_line {
        text.append("\\n...");
    }
    proof {
        reveal_strlit("...");
        reveal_strlit("\\n...");
        assert(text@ =~= spec_sample(line@, start_idx as int, end_idx as int, multi_line));
    }

    let arrw = gen_arrw(
        start_idx,
        end_idx,
        msg,
        start_trim,
        if multi_line {
            5
        } else {
            0
        },
    );
    (text, arrw)
}

/// The full report for a diagnostic, per the fixed layout: header line,
/// location line, quoted source line, and caret underline.
pub open spec fn spec_render(e: CompileError) -> Seq<char> {
    let start = e.position.0;
    let line = start.cur_line();
    let multi = start.ln != e.position.1.ln;
    let end_idx: int = if multi {
        line.len() as int
    } else {
        e.position.1.ln_idx as int
    };
    let ln_str = dec_str(start.ln as int);
    "\nerror["@ + e.id@ + "]: "@ + e.error_type@ + "\n --> "@ + start.file_name@ + ":"@ + ln_str
        + ":"@ + dec_str(start.ln_idx as int) + "\n"@ + ln_str + " | "@ + spec_sample(
        line,
        start.ln_idx as int,
        end_idx,
        multi,
    ) + "\n"@ + repeat_char(' ', ln_str.len() as int) + " | "@ + spec_arrw(
        start.ln_idx as int,
        end_idx,
        e.msg@,
        spec_cal_trim(start.ln_idx as int, 0),
        if multi {
            5int
        } else {
            0int
        },
    ) + "\n <--"@
}

/// A line no longer than [`LINE_LIMIT`] is quoted unchanged.
pub proof fn lemma_short_line_quote_unchanged(line: Seq<char>, start_idx: int, end_idx: int)
    requires
        line.len() <= LINE_LIMIT as int,
        1 <= start_idx <= line.len(),
        start_idx <= end_idx,
        0 <= end_idx,
    ensures
        spec_sample(line, start_idx, end_idx, false) == line,
{
    assert(spec_cal_trim(start_idx, 0) == 0);
    assert(spec_cal_trim(line.len() as int, end_idx) == 0);
    assert(line.subrange(0, line.len() as int) =~= line);
}

/// On a long line whose span has more than [`LINE_LIMIT`] characters of
/// context on both sides, the quote is trimmed at both ends: a leading and a
/// trailing ellipsis marker appear, and the underline's leading spaces end
/// exactly under the sample position where the span's first character now
/// stands, so the caret aligns with the original column.
pub proof fn lemma_long_line_trim_aligns(
    line: Seq<char>,
    start_idx: int,
    end_idx: int,
    msg: Seq<char>,
)
    requires
        1 <= start_idx <= end_idx <= line.len(),
        start_idx > LINE_LIMIT as int,
        line.len() - end_idx > LINE_LIMIT as int,
    ensures
        ({
            let st = spec_cal_trim(start_idx, 0);
            let sample = spec_sample(line, start_idx, end_idx, false);
            &&& st > 0
            &&& spec_cal_trim(line.len() as int, end_idx) > 0
            &&& sample.take(3) == seq!['.', '.', '.']
            &&& sample.skip(sample.len() - 3) == seq!['.', '.', '.']
            &&& 0 <= 3 + (start_idx - 1 - st) < sample.len()
            &&& sample[3 + (start_idx - 1 - st)] == line[start_idx - 1]
            &&& spec_arrw_spaces(start_idx, st) == 3 + (start_idx - 1 - st)
            &&& spec_arrw(start_idx, end_idx, msg, st, 0)[spec_arrw_spaces(start_idx, st)] == '^'
        }),
{
    let st = spec_cal_trim(start_idx, 0);
    let et = spec_cal_trim(line.len() as int, end_idx);
    let core = line.subrange(st, line.len() - et);
    let sample = spec_sample(line, start_idx, end_idx, false);
    assert(st == start_idx - LINE_LIMIT as int + 3);
    assert(et == line.len() - end_idx - LINE_LIMIT as int + 3);
    assert(sample == (seq!['.', '.', '.'] + core) + seq!['.', '.', '.']);
    assert(sample.take(3) =~= seq!['.', '.', '.']);
    assert(sample.skip(sample.len() - 3) =~= seq!['.', '.', '.']);
    assert(sample[3 + (start_idx - 1 - st)] == core[start_idx - 1 - st]);
    assert(core[start_idx - 1 - st] == line[start_idx - 1]);
    let spaces = spec_arrw_spaces(start_idx, st);
    let arrw = spec_arrw(start_idx, end_idx, msg, st, 0);
    assert(arrw[spaces] == repeat_char('^', end_idx - start_idx + 1)[0]);
}

impl CompileError {
    /// A diagnostic can be rendered when its start cursor is well formed and
    /// the span's columns are ordered within the quoted line.
    pub open spec fn renderable(&self) -> bool {
        &&& self.position.0.wf()
        &&& (self.position.0.ln == self.position.1.ln ==> self.position.0.ln_idx
            <= self.position.1.ln_idx && self.position.1.ln_idx <= self.position.0.cur_line().len()
            + 1)
        &&& (self.position.0.ln != self.position.1.ln ==> self.position.0.ln_idx
            <= self.position.0.cur_line().len())
    }

    /// Renders the diagnostic when it is renderable, and yields nothing
    /// otherwise: the run-time face of [`CompileError::render`].
    pub fn try_render(&self) -> (r: Option<String>)
        ensures
            r is Some <==> self.renderable(),
            r is Some ==> r.unwrap()@ == spec_render(*self),
    {
        if !self.position.0.check_wf() {
            return None;
        }
        let start = &self.position.0;
        let line = start.get_ln().unwrap();
        let len = line.as_str().unicode_len();
        let ok = if start.ln == self.position.1.ln {
            start.ln_idx <= self.position.1.ln_idx && (self.position.1.ln_idx as usize) <= len + 1
        } else {
            (start.ln_idx as usize) <= len
        };
        if ok {
            Some(self.render())
        } else {
            None
        }
    }

    /// Renders the diagnostic as its user-facing report.
    pub fn render(&self) -> (r: String)
        requires
            self.renderable(),
        ensures
            r@ == spec_render(*self),
    {
        let start = &self.position.0;
        let line = start.get_ln().unwrap();
        let multi = start.ln != self.position.1.ln;
        let end_idx: u16 = if multi {
            line.as_str().unicode_len() as u16
        } else {
            self.position.1.ln_idx
        };
        let (line_s, arrw) = sample(line.as_str(), start.ln_idx, end_idx, self.msg.as_str(), multi);

        let mut out = String::new();
        out.append("\nerror[");
        out.append(self.id);
        out.append("]: ");
        out.append(self.error_type);
        out.append("\n --> ");
        out.append(self.position.0.file_name.as_str());
        out.append(":");
        push_dec(&mut out, start.ln);
        out.append(":");
        push_dec(&mut out, start.ln_idx);
        out.append("\n");
        push_dec(&mut out, start.ln);
        out.append(" | ");
        out.append(line_s.as_str());
        out.append("\n");
        push_repeat(&mut out, ' ', dec_len(start.ln));
        out.append(" | ");
        out.append(arrw.as_str());
        out.append("\n <--");
        out
    }
}

} // verus!
