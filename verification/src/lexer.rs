//! The lexing engine: an ordered table of character rules applied to a
//! [`Lext`], producing a token stream or one fatal diagnostic.

use vstd::prelude::*;
use vstd::string::StrSliceExecFns;
use crate::cursor::Position;
use crate::diagnostic::{CompileError, CompileErrorTemplate};
use crate::lext::Lext;
use crate::token_node::Token;

verus! {

/// The kind of a produced token: a fixed kind chosen by the rule table, or a
/// payload-carrying kind built by one of the detailed rules.
#[derive(Debug, Clone, PartialEq)]
pub enum TokenKind {
    /// A token of a fixed rule or a keyword, under the identifier the rule
    /// table chose for it.
    Fixed(u32),
    /// An integer numeral.
    Int(u32),
    /// A numeral with a decimal point, kept as its text.
    Float(String),
    /// A string literal, without its quotes.
    Str(String),
    /// An identifier.
    Ident(String),
}

/// The mathematical value of a token kind: payloads abstracted to sequences.
pub enum SpecKind {
    Fixed(u32),
    Int(u32),
    Float(Seq<char>),
    Str(Seq<char>),
    Ident(Seq<char>),
}

impl View for TokenKind {
    type V = SpecKind;

    open spec fn view(&self) -> SpecKind {
        match self {
            TokenKind::Fixed(id) => SpecKind::Fixed(*id),
            TokenKind::Int(v) => SpecKind::Int(*v),
            TokenKind::Float(s) => SpecKind::Float(s@),
            TokenKind::Str(s) => SpecKind::Str(s@),
            TokenKind::Ident(s) => SpecKind::Ident(s@),
        }
    }
}

/// The display text of a token kind: the payload text of a payload-carrying
/// kind, and the decimal form of the identifier or value otherwise.
pub open spec fn kind_text(k: SpecKind) -> Seq<char> {
    match k {
        SpecKind::Fixed(id) => crate::display::dec_str(id as int),
        SpecKind::Int(v) => crate::display::dec_str(v as int),
        SpecKind::Float(s) => s,
        SpecKind::Str(s) => s,
        SpecKind::Ident(s) => s,
    }
}

impl TokenKind {
    /// The display text used when a diagnostic quotes this token.
    pub fn to_text(&self) -> (r: String)
        ensures
            r@ == kind_text(self@),
    {
        match self {
            TokenKind::Fixed(id) => crate::display::dec_string(*id),
            TokenKind::Int(v) => crate::display::dec_string(*v),
            TokenKind::Float(s) => s.clone(),
            TokenKind::Str(s) => s.clone(),
            TokenKind::Ident(s) => s.clone(),
        }
    }
}

impl crate::token_node::TokenToString for Option<&Token<TokenKind>> {
    /// The token's display text, or a single space for "end of input".
    fn to_string(&self) -> String {
        match self {
            Some(t) => t.token_type.to_text(),
            None => {
                let mut s = String::new();
                s.push(' ');
                s
            },
        }
    }
}

/// The ten decimal digit characters.
pub open spec fn is_digit(c: char) -> bool {
    c == '0' || c == '1' || c == '2' || c == '3' || c == '4' || c == '5' || c == '6' || c == '7'
        || c == '8' || c == '9'
}

/// The numeric value of one digit character.
pub open spec fn digit_val(c: char) -> int {
    if c == '0' {
        0
    } else if c == '1' {
        1
    } else if c == '2' {
        2
    } else if c == '3' {
        3
    } else if c == '4' {
        4
    } else if c == '5' {
        5
    } else if c == '6' {
        6
    } else if c == '7' {
        7
    } else if c == '8' {
        8
    } else {
        9
    }
}

fn exec_is_digit(c: char) -> (r: bool)
    ensures
        r == is_digit(c),
{
    c == '0' || c == '1' || c == '2' || c == '3' || c == '4' || c == '5' || c == '6' || c == '7'
        || c == '8' || c == '9'
}

fn exec_digit_val(c: char) -> (r: u32)
    requires
        is_digit(c),
    ensures
        r == digit_val(c),
{
    if c == '0' {
        0
    } else if c == '1' {
        1
    } else if c == '2' {
        2
    } else if c == '3' {
        3
    } else if c == '4' {
        4
    } else if c == '5' {
        5
    } else if c == '6' {
        6
    } else if c == '7' {
        7
    } else if c == '8' {
        8
    } else {
        9
    }
}

/// The value of a sequence of digit characters read in base ten.
pub open spec fn digits_val(t: Seq<char>) -> int
    decreases t.len(),
{
    if t.len() == 0 {
        0
    } else {
        digits_val(t.drop_last()) * 10 + digit_val(t.last())
    }
}

/// A digit string's value only grows as more digits are appended.
pub proof fn lemma_digits_val_prefix(t: Seq<char>, i: int)
    requires
        0 <= i <= t.len(),
    ensures
        digits_val(t.take(i)) <= digits_val(t),
        digits_val(t) >= 0,
    decreases t.len() - i,
{
    if i < t.len() {
        lemma_digits_val_nonneg(t.take(i));
        lemma_digits_val_prefix(t, i + 1);
        assert(t.take(i + 1).drop_last() =~= t.take(i));
        assert(digits_val(t.take(i + 1)) == digits_val(t.take(i)) * 10 + digit_val(
            t.take(i + 1).last(),
        ));
    } else {
        assert(t.take(i) =~= t);
        lemma_digits_val_nonneg(t);
    }
}

/// Digit strings have non-negative values.
pub proof fn lemma_digits_val_nonneg(t: Seq<char>)
    ensures
        digits_val(t) >= 0,
    decreases t.len(),
{
    if t.len() > 0 {
        lemma_digits_val_nonneg(t.drop_last());
    }
}

/// Whether `class` (a character class given as a list) contains `c`.
fn class_contains(class: &Vec<char>, c: char) -> (r: bool)
    ensures
        r == class@.contains(c),
{
    let mut i: usize = 0;
    while i < class.len()
        invariant
            i <= class@.len(),
            forall|k: int| 0 <= k < i ==> class@[k] != c,
        decreases class@.len() - i,
    {
        if class[i] == c {
            return true;
        }
        i += 1;
    }
    false
}

/// The first offset at or after `j` holding character `c`, or the stream's
/// length if there is none.
pub open spec fn first_at(s: Seq<char>, j: int, c: char) -> int
    decreases s.len() - j,
{
    if j < 0 || j >= s.len() {
        s.len() as int
    } else if s[j] == c {
        j
    } else {
        first_at(s, j + 1, c)
    }
}

/// `first_at` stays between `j` and the stream's length, holds `c` when it
/// is inside the stream, and nothing before it holds `c`.
pub proof fn lemma_first_at(s: Seq<char>, j: int, c: char)
    requires
        0 <= j <= s.len(),
    ensures
        j <= first_at(s, j, c) <= s.len(),
        first_at(s, j, c) < s.len() ==> s[first_at(s, j, c)] == c,
        forall|k: int| j <= k < first_at(s, j, c) ==> s[k] != c,
    decreases s.len() - j,
{
    if j < s.len() && s[j] != c {
        lemma_first_at(s, j + 1, c);
    }
}

/// The first offset at or after `j` whose character lies outside `class`,
/// or the stream's length if the class covers everything from `j` on.
pub open spec fn scan_while(s: Seq<char>, j: int, class: Seq<char>) -> int
    decreases s.len() - j,
{
    if j < 0 || j >= s.len() {
        s.len() as int
    } else if !class.contains(s[j]) {
        j
    } else {
        scan_while(s, j + 1, class)
    }
}

/// `scan_while` stays in bounds, stops at a character outside the class, and
/// everything before the stop lies inside the class.
pub proof fn lemma_scan_while(s: Seq<char>, j: int, class: Seq<char>)
    requires
        0 <= j <= s.len(),
    ensures
        j <= scan_while(s, j, class) <= s.len(),
        scan_while(s, j, class) < s.len() ==> !class.contains(s[scan_while(s, j, class)]),
        forall|k: int| j <= k < scan_while(s, j, class) ==> class.contains(#[trigger] s[k]),
    decreases s.len() - j,
{
    if j < s.len() && class.contains(s[j]) {
        lemma_scan_while(s, j + 1, class);
    }
}

/// Where a numeral starting at `j` ends: digits are consumed, one decimal
/// point is consumed, and a second decimal point or any other character
/// stops the scan.
pub open spec fn num_scan(s: Seq<char>, j: int, dot: bool) -> int
    decreases s.len() - j,
{
    if j < 0 || j >= s.len() {
        s.len() as int
    } else if is_digit(s[j]) {
        num_scan(s, j + 1, dot)
    } else if s[j] == '.' && !dot {
        num_scan(s, j + 1, true)
    } else {
        j
    }
}

/// `num_scan` stays in bounds and only consumes digits and decimal points.
pub proof fn lemma_num_scan(s: Seq<char>, j: int, dot: bool)
    requires
        0 <= j <= s.len(),
    ensures
        j <= num_scan(s, j, dot) <= s.len(),
        forall|k: int|
            j <= k < num_scan(s, j, dot) ==> is_digit(#[trigger] s[k]) || s[k] == '.',
    decreases s.len() - j,
{
    if j < s.len() {
        if is_digit(s[j]) {
            lemma_num_scan(s, j + 1, dot);
        } else if s[j] == '.' && !dot {
            lemma_num_scan(s, j + 1, true);
        }
    }
}

/// One ordered rule of a lexer: tried at the current character; the first
/// rule whose leading condition matches wins.
pub enum LexRule {
    /// One fixed character, mapped to a fixed token kind.
    Single(char, u32),
    /// A fixed multi-character literal, matched whole or not at all.
    Literal(Vec<char>, u32),
    /// A character class that is consumed without emitting a token.
    Skip(Vec<char>),
    /// A character that either starts a line comment (when followed by the
    /// second character; everything up to the line's end is skipped) or is a
    /// token of its own.
    LineComment(char, char, u32),
    /// A quoted string literal: the quote character and the diagnostic
    /// raised when the end of the file arrives before the closing quote.
    StrLit(char, CompileErrorTemplate),
    /// A numeral: digits with at most one decimal point; the diagnostic is
    /// raised when an integer numeral does not fit in 32 bits.
    Number(CompileErrorTemplate),
    /// An identifier: its start class, its continuation class, and the
    /// keywords that map identifier text to fixed token kinds.
    Ident(Vec<char>, Vec<char>, Vec<(String, u32)>),
}

/// The model of a produced token: its kind and the stream offsets of its
/// first and last character.
pub struct SpecToken {
    pub kind: SpecKind,
    pub start: int,
    pub end: int,
}

/// The model of a fatal diagnostic: code, category, message, and the stream
/// offsets its position spans.
pub struct SpecErr {
    pub id: Seq<char>,
    pub category: Seq<char>,
    pub msg: Seq<char>,
    pub start: int,
    pub end: int,
}

/// What one rule does at one position.
pub enum SpecRuleOut {
    /// The rule's leading condition does not match; the next rule is tried.
    NoMatch,
    /// Characters were consumed without a token; lexing restarts at the
    /// given offset.
    Skipped(int),
    /// A token: its kind, the offset of its last character, and the offset
    /// at which lexing restarts.
    Tok(SpecKind, int, int),
    /// A fatal diagnostic.
    Fail(SpecErr),
}

/// What a whole lexing run produces.
pub enum SpecLexOut {
    Done(Seq<SpecToken>),
    Failed(SpecErr),
}

/// The model of the diagnostic a template yields for given arguments and a
/// span of stream offsets.
pub open spec fn tpl_err(
    tpl: CompileErrorTemplate,
    args: Seq<Seq<char>>,
    start: int,
    end: int,
) -> SpecErr {
    SpecErr {
        id: tpl.fmt.0@,
        category: tpl.error_type@,
        msg: crate::diagnostic::interleave(tpl.fmt.segs(), args),
        start,
        end,
    }
}

/// The first keyword entry whose text equals `text`, if any.
pub open spec fn kw_lookup_spec(kws: Seq<(String, u32)>, text: Seq<char>) -> Option<u32>
    decreases kws.len(),
{
    if kws.len() == 0 {
        None
    } else if kws[0].0@ == text {
        Some(kws[0].1)
    } else {
        kw_lookup_spec(kws.drop_first(), text)
    }
}

/// Whether a rule's leading condition matches at offset `pos`.
pub open spec fn rule_applies(rule: LexRule, s: Seq<char>, pos: int) -> bool {
    match rule {
        LexRule::Single(c, _) => s[pos] == c,
        LexRule::Literal(cs, _) => 1 <= cs@.len() && pos + cs@.len() <= s.len() && s.subrange(
            pos,
            pos + cs@.len(),
        ) == cs@,
        LexRule::Skip(class) => class@.contains(s[pos]),
        LexRule::LineComment(c1, _, _) => s[pos] == c1,
        LexRule::StrLit(q, _) => s[pos] == q,
        LexRule::Number(_) => is_digit(s[pos]),
        LexRule::Ident(st, ct, _) => st@.contains(s[pos]) && ct@.contains(s[pos]),
    }
}

/// What a rule whose leading condition matches at `pos` produces.
pub open spec fn rule_result(rule: LexRule, s: Seq<char>, pos: int) -> SpecRuleOut {
    match rule {
        LexRule::Single(_, id) => SpecRuleOut::Tok(SpecKind::Fixed(id), pos, pos + 1),
        LexRule::Literal(cs, id) => SpecRuleOut::Tok(
            SpecKind::Fixed(id),
            pos + cs@.len() - 1,
            pos + cs@.len(),
        ),
        LexRule::Skip(_) => SpecRuleOut::Skipped(pos + 1),
        LexRule::LineComment(_, c2, id) => if pos + 1 < s.len() && s[pos + 1] == c2 {
            SpecRuleOut::Skipped(first_at(s, pos + 2, '\n'))
        } else {
            SpecRuleOut::Tok(SpecKind::Fixed(id), pos, pos + 1)
        },
        LexRule::StrLit(q, tpl) => {
            let close = first_at(s, pos + 1, q);
            if close < s.len() {
                SpecRuleOut::Tok(SpecKind::Str(s.subrange(pos + 1, close)), close, close + 1)
            } else {
                SpecRuleOut::Fail(tpl_err(tpl, seq![], s.len() - 1, s.len() - 1))
            }
        },
        LexRule::Number(tpl) => {
            let e = num_scan(s, pos, false);
            let text = s.subrange(pos, e);
            if text.contains('.') {
                SpecRuleOut::Tok(SpecKind::Float(text), e - 1, e)
            } else if digits_val(text) <= u32::MAX {
                SpecRuleOut::Tok(SpecKind::Int(digits_val(text) as u32), e - 1, e)
            } else {
                SpecRuleOut::Fail(tpl_err(tpl, seq![text], pos, e - 1))
            }
        },
        LexRule::Ident(_, ct, kws) => {
            let e = scan_while(s, pos, ct@);
            let text = s.subrange(pos, e);
            match kw_lookup_spec(kws@, text) {
                Some(id) => SpecRuleOut::Tok(SpecKind::Fixed(id), e - 1, e),
                None => SpecRuleOut::Tok(SpecKind::Ident(text), e - 1, e),
            }
        },
    }
}

/// The outcome of trying the rules in order: the first one whose leading
/// condition matches decides.
pub open spec fn try_rules_spec(rules: Seq<LexRule>, s: Seq<char>, pos: int) -> SpecRuleOut
    decreases rules.len(),
{
    if rules.len() == 0 {
        SpecRuleOut::NoMatch
    } else if rule_applies(rules[0], s, pos) {
        rule_result(rules[0], s, pos)
    } else {
        try_rules_spec(rules.drop_first(), s, pos)
    }
}

/// A rule the engine can run: literals are non-empty (so that every match
/// consumes at least one character) and the diagnostic templates have the
/// arity the engine instantiates them with.
pub open spec fn rule_wf(rule: LexRule) -> bool {
    match rule {
        LexRule::Literal(cs, _) => cs@.len() >= 1,
        LexRule::StrLit(_, tpl) => tpl.arity() == 1,
        LexRule::Number(tpl) => tpl.arity() == 2,
        _ => true,
    }
}

pub open spec fn rules_wf(rules: Seq<LexRule>) -> bool {
    forall|i: int| 0 <= i < rules.len() ==> rule_wf(#[trigger] rules[i])
}

/// A matching rule always makes progress: it consumes at least one character
/// and stays within the stream.
pub proof fn lemma_rule_progress(rule: LexRule, s: Seq<char>, pos: int)
    requires
        0 <= pos < s.len(),
        rule_wf(rule),
        rule_applies(rule, s, pos),
    ensures
        match rule_result(rule, s, pos) {
            SpecRuleOut::NoMatch => false,
            SpecRuleOut::Skipped(p) => pos < p <= s.len(),
            SpecRuleOut::Tok(_, e, p) => pos <= e && e == p - 1 && pos < p <= s.len(),
            SpecRuleOut::Fail(_) => true,
        },
{
    match rule {
        LexRule::LineComment(_, c2, _) => {
            if pos + 1 < s.len() && s[pos + 1] == c2 {
                lemma_first_at(s, pos + 2, '\n');
            }
        },
        LexRule::StrLit(q, _) => {
            lemma_first_at(s, pos + 1, q);
        },
        LexRule::Number(_) => {
            lemma_num_scan(s, pos, false);
            assert(num_scan(s, pos, false) == num_scan(s, pos + 1, false));
            lemma_num_scan(s, pos + 1, false);
        },
        LexRule::Ident(_, ct, _) => {
            lemma_scan_while(s, pos, ct@);
            assert(scan_while(s, pos, ct@) == scan_while(s, pos + 1, ct@));
            lemma_scan_while(s, pos + 1, ct@);
        },
        _ => {},
    }
}

/// The whole lexing run from offset `pos`: apply the first matching rule,
/// emit its token if it made one, and continue behind it; fail fatally on
/// the first diagnostic, or — when no rule matches — with the no-match
/// diagnostic pointing at the offending character.
pub open spec fn spec_lex(
    rules: Seq<LexRule>,
    s: Seq<char>,
    pos: int,
    nm: CompileErrorTemplate,
) -> SpecLexOut
    decreases s.len() - pos,
{
    if pos < 0 || pos >= s.len() {
        SpecLexOut::Done(seq![])
    } else {
        match try_rules_spec(rules, s, pos) {
            SpecRuleOut::NoMatch => SpecLexOut::Failed(tpl_err(nm, seq![seq![s[pos]]], pos, pos)),
            SpecRuleOut::Skipped(p) => {
                let p2 = if pos + 1 <= p && p <= s.len() {
                    p
                } else {
                    pos + 1
                };
                spec_lex(rules, s, p2, nm)
            },
            SpecRuleOut::Tok(k, e, p) => {
                let p2 = if pos + 1 <= p && p <= s.len() {
                    p
                } else {
                    pos + 1
                };
                match spec_lex(rules, s, p2, nm) {
                    SpecLexOut::Done(ts) => SpecLexOut::Done(
                        seq![SpecToken { kind: k, start: pos, end: e }] + ts,
                    ),
                    SpecLexOut::Failed(f) => SpecLexOut::Failed(f),
                }
            },
            SpecRuleOut::Fail(f) => SpecLexOut::Failed(f),
        }
    }
}

/// An executable token realises its model when its kind agrees and its two
/// cursors are well formed, belong to the given file, and stand at the
/// model's offsets.
pub open spec fn token_matches(
    t: Token<TokenKind>,
    m: SpecToken,
    lines: Seq<Seq<char>>,
    fname: Seq<char>,
) -> bool {
    &&& t.token_type@ == m.kind
    &&& t.position.0.wf() && t.position.1.wf()
    &&& t.position.0.lines() == lines && t.position.1.lines() == lines
    &&& t.position.0.file_name@ == fname && t.position.1.file_name@ == fname
    &&& t.position.0.offset() == m.start && t.position.1.offset() == m.end
}

/// An executable diagnostic realises its model likewise.
pub open spec fn err_matches(
    e: CompileError,
    m: SpecErr,
    lines: Seq<Seq<char>>,
    fname: Seq<char>,
) -> bool {
    &&& e.id@ == m.id
    &&& e.error_type@ == m.category
    &&& e.msg@ == m.msg
    &&& e.position.0.wf() && e.position.1.wf()
    &&& e.position.0.lines() == lines && e.position.1.lines() == lines
    &&& e.position.0.file_name@ == fname && e.position.1.file_name@ == fname
    &&& e.position.0.offset() == m.start && e.position.1.offset() == m.end
}

/// The file a context reads: its lines and its file name.
pub open spec fn lext_frame(a: Lext, b: Lext) -> bool {
    &&& b.cursor.pos_end.lines() == a.cursor.pos_end.lines()
    &&& b.cursor.pos_end.file_name@ == a.cursor.pos_end.file_name@
}

/// What running one rule produced.
enum RuleOutcome {
    NoRule,
    Skipped,
    Tok(Token<TokenKind>),
    Fail(CompileError),
}

fn run_single(lext: &mut Lext, c: char, id: u32) -> (t: Token<TokenKind>)
    requires
        old(lext).wf(),
        old(lext).current == Some(c),
        old(lext).cursor.pos_start == old(lext).cursor.pos_end,
    ensures
        final(lext).wf(),
        lext_frame(*old(lext), *final(lext)),
        final(lext).pos() == old(lext).pos() + 1,
        token_matches(
            t,
            SpecToken { kind: SpecKind::Fixed(id), start: old(lext).pos(), end: old(lext).pos() },
            old(lext).cursor.pos_end.lines(),
            old(lext).cursor.pos_end.file_name@,
        ),
{
    proof {
        crate::cursor::lemma_cursor_stream(lext.cursor.pos_end);
    }
    let start = lext.cursor.pos_start.dupe();
    let end = lext.cursor.pos_end.dupe();
    lext.advance();
    Token { position: Position(start, end), token_type: TokenKind::Fixed(id) }
}

fn run_literal(lext: &mut Lext, cs: &Vec<char>, id: u32) -> (r: Option<Token<TokenKind>>)
    requires
        old(lext).wf(),
        old(lext).current is Some,
        old(lext).cursor.pos_start == old(lext).cursor.pos_end,
        cs@.len() >= 1,
    ensures
        match r {
            Some(t) => {
                let pos = old(lext).pos();
                let s = old(lext).stream();
                &&& pos + cs@.len() <= s.len() && s.subrange(pos, pos + cs@.len()) == cs@
                &&& final(lext).wf()
                &&& lext_frame(*old(lext), *final(lext))
                &&& final(lext).pos() == pos + cs@.len()
                &&& token_matches(
                    t,
                    SpecToken {
                        kind: SpecKind::Fixed(id),
                        start: pos,
                        end: pos + cs@.len() - 1,
                    },
                    old(lext).cursor.pos_end.lines(),
                    old(lext).cursor.pos_end.file_name@,
                )
            },
            None => {
                let pos = old(lext).pos();
                let s = old(lext).stream();
                &&& *final(lext) == *old(lext)
                &&& !(pos + cs@.len() <= s.len() && s.subrange(pos, pos + cs@.len()) == cs@)
            },
        },
{
    let ghost s = old(lext).stream();
    let ghost pos = old(lext).pos();
    proof {
        crate::cursor::lemma_cursor_stream(lext.cursor.pos_end);
        assert(s.subrange(pos, pos) =~= cs@.take(0));
    }
    let mut child = lext.spawn();
    let mut last = child.cursor.pos_end.dupe();
    let mut i: usize = 0;
    let n = cs.len();
    while i < n
        invariant
            0 < n == cs@.len(),
            i <= n,
            child.wf(),
            lext_frame(*old(lext), child),
            child.stream() == s,
            child.pos() == pos + i,
            0 <= pos,
            pos + i <= s.len(),
            pos == old(lext).pos() < s.len(),
            s == old(lext).stream(),
            s.subrange(pos, pos + i as int) == cs@.take(i as int),
            child.cursor.pos_start == old(lext).cursor.pos_end,
            i > 0 ==> last.wf() && last.offset() == pos + i - 1 && last.lines()
                == old(lext).cursor.pos_end.lines() && last.file_name@ == old(
                lext,
            ).cursor.pos_end.file_name@,
        decreases n - i,
    {
        match child.current {
            Some(c) => {
                if c == cs[i] {
                    proof {
                        crate::cursor::lemma_cursor_stream(child.cursor.pos_end);
                        assert(s.subrange(pos, pos + i + 1) =~= s.subrange(pos, pos + i as int).push(
                            s[pos + i],
                        ));
                        assert(cs@.take(i + 1) =~= cs@.take(i as int).push(cs@[i as int]));
                    }
                    last = child.cursor.pos_end.dupe();
                    child.advance();
                    i += 1;
                } else {
                    proof {
                        if pos + cs@.len() <= s.len() && s.subrange(pos, pos + cs@.len()) == cs@ {
                            assert(s.subrange(pos, pos + cs@.len())[i as int] == cs@[i as int]);
                        }
                    }
                    return None;
                }
            },
            None => {
                proof {
                    assert(pos + i == s.len());
                }
                return None;
            },
        }
    }
    proof {
        assert(cs@.take(n as int) =~= cs@);
    }
    let start = lext.cursor.pos_end.dupe();
    *lext = child;
    Some(Token { position: Position(start, last), token_type: TokenKind::Fixed(id) })
}

fn run_line_comment(lext: &mut Lext, c1: char, c2: char, id: u32) -> (r: RuleOutcome)
    requires
        old(lext).wf(),
        old(lext).current == Some(c1),
        old(lext).cursor.pos_start == old(lext).cursor.pos_end,
    ensures
        ({
            let pos = old(lext).pos();
            let s = old(lext).stream();
            let lines = old(lext).cursor.pos_end.lines();
            let fname = old(lext).cursor.pos_end.file_name@;
            if pos + 1 < s.len() && s[pos + 1] == c2 {
                match r {
                    RuleOutcome::Skipped => final(lext).wf() && lext_frame(*old(lext), *final(lext))
                        && final(lext).stream() == s && final(lext).pos() == first_at(
                        s,
                        pos + 2,
                        '\n',
                    ),
                    _ => false,
                }
            } else {
                match r {
                    RuleOutcome::Tok(t) => final(lext).wf() && lext_frame(*old(lext), *final(lext))
                        && final(lext).stream() == s && final(lext).pos() == pos + 1
                        && token_matches(
                        t,
                        SpecToken { kind: SpecKind::Fixed(id), start: pos, end: pos },
                        lines,
                        fname,
                    ),
                    _ => false,
                }
            }
        }),
{
    let ghost s = old(lext).stream();
    let ghost pos = old(lext).pos();
    proof {
        crate::cursor::lemma_cursor_stream(lext.cursor.pos_end);
    }
    let mut child = lext.spawn();
    child.advance();
    let is_comment = match child.current {
        Some(cc) => cc == c2,
        None => false,
    };
    if is_comment {
        proof {
            crate::cursor::lemma_cursor_stream(child.cursor.pos_end);
        }
        child.advance();
        proof {
            lemma_first_at(s, pos + 2, '\n');
        }
        let mut scanning = true;
        while scanning
            invariant
                child.wf(),
                lext_frame(*old(lext), child),
                child.stream() == s,
                pos + 2 <= child.pos() <= s.len(),
                forall|m: int| pos + 2 <= m < child.pos() ==> s[m] != '\n',
                0 <= pos,
                pos + 2 <= s.len(),
                !scanning ==> (child.current is None || (child.pos() < s.len() && s[child.pos()]
                    == '\n')),
            decreases s.len() - child.pos() + (if scanning {
                1int
            } else {
                0int
            }),
        {
            match child.current {
                Some(c3) => {
                    if c3 == '\n' {
                        proof {
                            crate::cursor::lemma_cursor_stream(child.cursor.pos_end);
                        }
                        scanning = false;
                    } else {
                        proof {
                            crate::cursor::lemma_cursor_stream(child.cursor.pos_end);
                        }
                        child.advance();
                    }
                },
                None => {
                    scanning = false;
                },
            }
        }
        proof {
            lemma_first_at(s, pos + 2, '\n');
        }
        *lext = child;
        RuleOutcome::Skipped
    } else {
        let t = run_single(lext, c1, id);
        RuleOutcome::Tok(t)
    }
}

#[verifier::loop_isolation(false)]
fn run_strlit(lext: &mut Lext, q: char, tpl: &CompileErrorTemplate) -> (r: RuleOutcome)
    requires
        old(lext).wf(),
        old(lext).current == Some(q),
        old(lext).cursor.pos_start == old(lext).cursor.pos_end,
        tpl.arity() == 1,
    ensures
        ({
            let pos = old(lext).pos();
            let s = old(lext).stream();
            let lines = old(lext).cursor.pos_end.lines();
            let fname = old(lext).cursor.pos_end.file_name@;
            let close = first_at(s, pos + 1, q);
            if close < s.len() {
                match r {
                    RuleOutcome::Tok(t) => final(lext).wf() && lext_frame(*old(lext), *final(lext))
                        && final(lext).stream() == s && final(lext).pos() == close + 1
                        && token_matches(
                        t,
                        SpecToken {
                            kind: SpecKind::Str(s.subrange(pos + 1, close)),
                            start: pos,
                            end: close,
                        },
                        lines,
                        fname,
                    ),
                    _ => false,
                }
            } else {
                match r {
                    RuleOutcome::Fail(e) => err_matches(
                        e,
                        tpl_err(*tpl, seq![], s.len() - 1, s.len() - 1),
                        lines,
                        fname,
                    ),
                    _ => false,
                }
            }
        }),
{
    let ghost s = old(lext).stream();
    let ghost pos = old(lext).pos();
    proof {
        crate::cursor::lemma_cursor_stream(lext.cursor.pos_end);
        lemma_first_at(s, pos + 1, q);
        assert(s.subrange(pos + 1, pos + 1) =~= Seq::<char>::empty());
    }
    let mut child = lext.spawn();
    child.advance();
    let mut text = String::new();
    loop
        invariant
            child.wf(),
            lext_frame(*old(lext), child),
            child.stream() == s,
            0 <= pos < s.len(),
            s == old(lext).stream(),
            pos == old(lext).pos(),
            pos + 1 <= child.pos() <= s.len(),
            text@ == s.subrange(pos + 1, child.pos()),
            forall|m: int| pos + 1 <= m < child.pos() ==> s[m] != q,
            *lext == *old(lext),
        decreases s.len() - child.pos(),
    {
        match child.current {
            None => {
                proof {
                    lemma_first_at(s, pos + 1, q);
                    assert(first_at(s, pos + 1, q) >= child.pos());
                }
                let errpos = Position(child.cursor.pos_end.dupe(), child.cursor.pos_end.dupe());
                let args: Vec<String> = Vec::new();
                let inputs = args.as_slice();
                proof {
                    assert(inputs@.len() == 0);
                    assert(inputs.deep_view() =~= Seq::<Seq<char>>::empty());
                }
                let e = tpl.instantiate(inputs, errpos).unwrap();
                return RuleOutcome::Fail(e);
            },
            Some(c) => {
                proof {
                    crate::cursor::lemma_cursor_stream(child.cursor.pos_end);
                }
                if c == q {
                    proof {
                        lemma_first_at(s, pos + 1, q);
                        assert(first_at(s, pos + 1, q) == child.pos());
                    }
                    let end = child.cursor.pos_end.dupe();
                    child.advance();
                    let start = lext.cursor.pos_end.dupe();
                    *lext = child;
                    return RuleOutcome::Tok(
                        Token { position: Position(start, end), token_type: TokenKind::Str(text) },
                    );
                } else {
                    proof {
                        assert(s.subrange(pos + 1, child.pos() + 1) =~= s.subrange(
                            pos + 1,
                            child.pos(),
                        ).push(s[child.pos()]));
                    }
                    text.push(c);
                    child.advance();
                }
            },
        }
    }
}

#[verifier::loop_isolation(false)]
fn run_number(lext: &mut Lext, tpl: &CompileErrorTemplate) -> (r: RuleOutcome)
    requires
        old(lext).wf(),
        old(lext).current is Some,
        is_digit(old(lext).current.unwrap()),
        old(lext).cursor.pos_start == old(lext).cursor.pos_end,
        tpl.arity() == 2,
    ensures
        ({
            let pos = old(lext).pos();
            let s = old(lext).stream();
            let lines = old(lext).cursor.pos_end.lines();
            let fname = old(lext).cursor.pos_end.file_name@;
            let e = num_scan(s, pos, false);
            let text = s.subrange(pos, e);
            if text.contains('.') {
                match r {
                    RuleOutcome::Tok(t) => final(lext).wf() && lext_frame(*old(lext), *final(lext))
                        && final(lext).stream() == s && final(lext).pos() == e && token_matches(
                        t,
                        SpecToken { kind: SpecKind::Float(text), start: pos, end: e - 1 },
                        lines,
                        fname,
                    ),
                    _ => false,
                }
            } else if digits_val(text) <= u32::MAX {
                match r {
                    RuleOutcome::Tok(t) => final(lext).wf() && lext_frame(*old(lext), *final(lext))
                        && final(lext).stream() == s && final(lext).pos() == e && token_matches(
                        t,
                        SpecToken {
                            kind: SpecKind::Int(digits_val(text) as u32),
                            start: pos,
                            end: e - 1,
                        },
                        lines,
                        fname,
                    ),
                    _ => false,
                }
            } else {
                match r {
                    RuleOutcome::Fail(err) => err_matches(
                        err,
                        tpl_err(*tpl, seq![text], pos, e - 1),
                        lines,
                        fname,
                    ),
                    _ => false,
                }
            }
        }),
{
    let ghost s = old(lext).stream();
    let ghost pos = old(lext).pos();
    proof {
        crate::cursor::lemma_cursor_stream(lext.cursor.pos_end);
        lemma_num_scan(s, pos, false);
        assert(s.subrange(pos, pos) =~= Seq::<char>::empty());
    }
    let mut child = lext.spawn();
    let mut text = String::new();
    let mut dot = false;
    let mut last = child.cursor.pos_end.dupe();
    let mut scanning = true;
    while scanning
        invariant
            child.wf(),
            lext_frame(*old(lext), child),
            child.stream() == s,
            pos <= child.pos() <= s.len(),
            text@ == s.subrange(pos, child.pos()),
            dot == s.subrange(pos, child.pos()).contains('.'),
            num_scan(s, pos, false) == num_scan(s, child.pos(), dot),
            child.pos() > pos ==> last.wf() && last.offset() == child.pos() - 1 && last.lines()
                == old(lext).cursor.pos_end.lines() && last.file_name@ == old(
                lext,
            ).cursor.pos_end.file_name@,
            child.pos() == pos ==> dot == false,
            !scanning ==> child.pos() == num_scan(s, pos, false),
            *lext == *old(lext),
        decreases s.len() - child.pos() + (if scanning {
            1int
        } else {
            0int
        }),
    {
        match child.current {
            None => {
                scanning = false;
            },
            Some(c) => {
                proof {
                    crate::cursor::lemma_cursor_stream(child.cursor.pos_end);
                }
                let is_d = exec_is_digit(c);
                if is_d || (c == '.' && !dot) {
                    proof {
                        let sub0 = s.subrange(pos, child.pos());
                        let sub1 = s.subrange(pos, child.pos() + 1);
                        assert(sub1 =~= sub0.push(s[child.pos()]));
                        if sub0.contains('.') {
                            let w = choose|w: int| 0 <= w < sub0.len() && sub0[w] == '.';
                            assert(sub1[w] == '.');
                            assert(sub1.contains('.'));
                        }
                        if c == '.' {
                            assert(sub1[sub0.len() as int] == '.');
                            assert(sub1.contains('.'));
                        }
                        if sub1.contains('.') {
                            let w = choose|w: int| 0 <= w < sub1.len() && sub1[w] == '.';
                            if w < sub0.len() {
                                assert(sub0[w] == '.');
                                assert(sub0.contains('.'));
                            }
                        }
                    }
                    if !is_d {
                        dot = true;
                    }
                    text.push(c);
                    last = child.cursor.pos_end.dupe();
                    child.advance();
                } else {
                    scanning = false;
                }
            },
        }
    }
    let ghost e = num_scan(s, pos, false);
    proof {
        assert(e == num_scan(s, pos + 1, false));
        lemma_num_scan(s, pos + 1, false);
        assert(child.pos() > pos);
    }
    let start = lext.cursor.pos_end.dupe();
    if dot {
        *lext = child;
        RuleOutcome::Tok(
            Token { position: Position(start, last), token_type: TokenKind::Float(text) },
        )
    } else {
        proof {
            lemma_num_scan(s, pos, false);
            assert forall|m: int| 0 <= m < text@.len() implies is_digit(#[trigger] text@[m]) by {
                assert(text@[m] == s[pos + m]);
                if s[pos + m] == '.' {
                    assert(text@.contains('.'));
                }
            }
        }
        match parse_u32(text.as_str()) {
            Some(v) => {
                *lext = child;
                RuleOutcome::Tok(
                    Token { position: Position(start, last), token_type: TokenKind::Int(v) },
                )
            },
            None => {
                let errpos = Position(start, last);
                let mut args: Vec<String> = Vec::new();
                args.push(text);
                let inputs = args.as_slice();
                proof {
                    assert(inputs.deep_view() =~= seq![s.subrange(pos, e)]);
                }
                let err = tpl.instantiate(inputs, errpos).unwrap();
                RuleOutcome::Fail(err)
            },
        }
    }
}

#[verifier::loop_isolation(false)]
fn kw_lookup(kws: &Vec<(String, u32)>, text: &String) -> (r: Option<u32>)
    ensures
        r == kw_lookup_spec(kws@, text@),
{
    proof {
        assert(kws@.skip(0) =~= kws@);
    }
    let mut i: usize = 0;
    while i < kws.len()
        invariant
            i <= kws@.len(),
            kw_lookup_spec(kws@, text@) == kw_lookup_spec(kws@.skip(i as int), text@),
        decreases kws@.len() - i,
    {
        proof {
            assert(kws@.skip(i as int)[0] == kws@[i as int]);
            assert(kws@.skip(i as int).drop_first() =~= kws@.skip(i + 1));
        }
        if kws[i].0.eq(text) {
            return Some(kws[i].1);
        }
        i += 1;
    }
    proof {
        assert(kws@.skip(kws@.len() as int) =~= Seq::<(String, u32)>::empty());
    }
    None
}

#[verifier::loop_isolation(false)]
fn run_ident(lext: &mut Lext, ct: &Vec<char>, kws: &Vec<(String, u32)>) -> (r: Token<TokenKind>)
    requires
        old(lext).wf(),
        old(lext).current is Some,
        ct@.contains(old(lext).current.unwrap()),
        old(lext).cursor.pos_start == old(lext).cursor.pos_end,
    ensures
        ({
            let pos = old(lext).pos();
            let s = old(lext).stream();
            let lines = old(lext).cursor.pos_end.lines();
            let fname = old(lext).cursor.pos_end.file_name@;
            let e = scan_while(s, pos, ct@);
            let text = s.subrange(pos, e);
            let kind = match kw_lookup_spec(kws@, text) {
                Some(id) => SpecKind::Fixed(id),
                None => SpecKind::Ident(text),
            };
            &&& final(lext).wf()
            &&& lext_frame(*old(lext), *final(lext))
            &&& final(lext).stream() == s
            &&& final(lext).pos() == e
            &&& token_matches(r, SpecToken { kind: kind, start: pos, end: e - 1 }, lines, fname)
        }),
{
    let ghost s = old(lext).stream();
    let ghost pos = old(lext).pos();
    proof {
        crate::cursor::lemma_cursor_stream(lext.cursor.pos_end);
        lemma_scan_while(s, pos, ct@);
        assert(s.subrange(pos, pos) =~= Seq::<char>::empty());
    }
    let mut child = lext.spawn();
    let mut text = String::new();
    let mut last = child.cursor.pos_end.dupe();
    let mut scanning = true;
    while scanning
        invariant
            child.wf(),
            lext_frame(*old(lext), child),
            child.stream() == s,
            pos <= child.pos() <= s.len(),
            text@ == s.subrange(pos, child.pos()),
            scan_while(s, pos, ct@) == scan_while(s, child.pos(), ct@),
            child.pos() > pos ==> last.wf() && last.offset() == child.pos() - 1 && last.lines()
                == old(lext).cursor.pos_end.lines() && last.file_name@ == old(
                lext,
            ).cursor.pos_end.file_name@,
            !scanning ==> child.pos() == scan_while(s, pos, ct@),
            *lext == *old(lext),
        decreases s.len() - child.pos() + (if scanning {
            1int
        } else {
            0int
        }),
    {
        match child.current {
            None => {
                scanning = false;
            },
            Some(c) => {
                proof {
                    crate::cursor::lemma_cursor_stream(child.cursor.pos_end);
                }
                if class_contains(ct, c) {
                    proof {
                        assert(s.subrange(pos, child.pos() + 1) =~= s.subrange(
                            pos,
                            child.pos(),
                        ).push(s[child.pos()]));
                    }
                    text.push(c);
                    last = child.cursor.pos_end.dupe();
                    child.advance();
                } else {
                    scanning = false;
                }
            },
        }
    }
    proof {
        assert(scan_while(s, pos, ct@) == scan_while(s, pos + 1, ct@));
        lemma_scan_while(s, pos + 1, ct@);
        assert(child.pos() > pos);
    }
    let start = lext.cursor.pos_end.dupe();
    let kind = match kw_lookup(kws, &text) {
        Some(id) => TokenKind::Fixed(id),
        None => TokenKind::Ident(text),
    };
    *lext = child;
    Token { position: Position(start, last), token_type: kind }
}

/// An unterminated string literal: when an opening quote has no matching
/// closing quote anywhere before the end of the file, the string rule fails
/// fatally with its diagnostic positioned at the end of the file, not at the
/// opening quote.
pub proof fn lemma_unterminated_string(q: char, tpl: CompileErrorTemplate, s: Seq<char>, pos: int)
    requires
        0 <= pos < s.len(),
        s[pos] == q,
        forall|k: int| pos + 1 <= k < s.len() ==> s[k] != q,
    ensures
        rule_result(LexRule::StrLit(q, tpl), s, pos) == SpecRuleOut::Fail(
            tpl_err(tpl, seq![], s.len() - 1, s.len() - 1),
        ),
{
    lemma_first_at(s, pos + 1, q);
}

/// When the first matching rule takes a step, it consumes at least one
/// character and stays within the stream.
pub proof fn lemma_try_rules_progress(rules: Seq<LexRule>, s: Seq<char>, pos: int)
    requires
        rules_wf(rules),
        0 <= pos < s.len(),
    ensures
        match try_rules_spec(rules, s, pos) {
            SpecRuleOut::Skipped(p) => pos < p <= s.len(),
            SpecRuleOut::Tok(_, e, p) => pos <= e && e == p - 1 && pos < p <= s.len(),
            _ => true,
        },
    decreases rules.len(),
{
    if rules.len() > 0 {
        if rule_applies(rules[0], s, pos) {
            lemma_rule_progress(rules[0], s, pos);
        } else {
            assert(rules_wf(rules.drop_first())) by {
                assert(forall|i: int|
                    0 <= i < rules.drop_first().len() ==> rules.drop_first()[i] == #[trigger] rules[
                        i + 1
                    ]);
            }
            lemma_try_rules_progress(rules.drop_first(), s, pos);
        }
    }
}

/// An ordered-rule lexer: the rule table and the diagnostic template used
/// when no rule matches the current character.
pub struct Lexer {
    pub rules: Vec<LexRule>,
    pub no_match: CompileErrorTemplate,
}

impl Lexer {
    /// A usable lexer: well-formed rules and a no-match template that takes
    /// the offending character as its one argument.
    pub open spec fn wf(&self) -> bool {
        &&& rules_wf(self.rules@)
        &&& self.no_match.arity() == 2
    }

    pub fn new(rules: Vec<LexRule>, no_match: CompileErrorTemplate) -> (r: Self)
        ensures
            r.rules == rules,
            r.no_match == no_match,
    {
        Self { rules, no_match }
    }

    /// Decides [`Lexer::wf`] at run time, for callers that assemble rule
    /// tables dynamically.
    #[verifier::loop_isolation(false)]
    pub fn check_wf(&self) -> (r: bool)
        ensures
            r == self.wf(),
    {
        proof {
            assert(self.no_match.arity() == self.no_match.fmt.1@.len());
        }
        if self.no_match.fmt.1.len() != 2 {
            return false;
        }
        let n = self.rules.len();
        let mut i: usize = 0;
        while i < n
            invariant
                i <= n,
                n == self.rules@.len(),
                forall|k: int| 0 <= k < i ==> rule_wf(#[trigger] self.rules@[k]),
            decreases n - i,
        {
            let ok = match &self.rules[i] {
                LexRule::Literal(cs, _) => cs.len() >= 1,
                LexRule::StrLit(_, tpl) => tpl.fmt.1.len() == 1,
                LexRule::Number(tpl) => tpl.fmt.1.len() == 2,
                _ => true,
            };
            if !ok {
                return false;
            }
            i += 1;
        }
        true
    }

    /// Tries the rules in declaration order at the current character; the
    /// first rule whose leading condition matches decides the outcome.
    #[verifier::loop_isolation(false)]
    fn try_rules(&self, lext: &mut Lext) -> (r: RuleOutcome)
        requires
            rules_wf(self.rules@),
            old(lext).wf(),
            old(lext).current is Some,
            old(lext).cursor.pos_start == old(lext).cursor.pos_end,
        ensures
            ({
                let pos = old(lext).pos();
                let s = old(lext).stream();
                let lines = old(lext).cursor.pos_end.lines();
                let fname = old(lext).cursor.pos_end.file_name@;
                match r {
                    RuleOutcome::NoRule => try_rules_spec(self.rules@, s, pos)
                        == SpecRuleOut::NoMatch && *final(lext) == *old(lext),
                    RuleOutcome::Skipped => try_rules_spec(self.rules@, s, pos) matches
                        SpecRuleOut::Skipped(p) && final(lext).wf() && lext_frame(
                        *old(lext),
                        *final(lext),
                    ) && final(lext).stream() == s && final(lext).pos() == p,
                    RuleOutcome::Tok(t) => try_rules_spec(self.rules@, s, pos) matches
                        SpecRuleOut::Tok(k, e, p) && final(lext).wf() && lext_frame(
                        *old(lext),
                        *final(lext),
                    ) && final(lext).stream() == s && final(lext).pos() == p && token_matches(
                        t,
                        SpecToken { kind: k, start: pos, end: e },
                        lines,
                        fname,
                    ),
                    RuleOutcome::Fail(err) => try_rules_spec(self.rules@, s, pos) matches
                        SpecRuleOut::Fail(m) && err_matches(err, m, lines, fname),
                }
            }),
    {
        let ghost s = old(lext).stream();
        let ghost pos = old(lext).pos();
        let c = match lext.current {
            Some(c) => c,
            None => unreached(),
        };
        proof {
            crate::cursor::lemma_cursor_stream(lext.cursor.pos_end);
            assert(self.rules@.skip(0) =~= self.rules@);
        }
        let n = self.rules.len();
        let mut i: usize = 0;
        while i < n
            invariant
                i <= n,
                n == self.rules@.len(),
                try_rules_spec(self.rules@, s, pos) == try_rules_spec(
                    self.rules@.skip(i as int),
                    s,
                    pos,
                ),
                *lext == *old(lext),
            decreases n - i,
        {
            proof {
                assert(self.rules@.skip(i as int)[0] == self.rules@[i as int]);
                assert(self.rules@.skip(i as int).drop_first() =~= self.rules@.skip(i + 1));
                assert(rule_wf(self.rules@[i as int]));
            }
            match &self.rules[i] {
                LexRule::Single(rc, id) => {
                    if c == *rc {
                        let t = run_single(lext, c, *id);
                        return RuleOutcome::Tok(t);
                    }
                },
                LexRule::Literal(cs, id) => {
                    match run_literal(lext, cs, *id) {
                        Some(t) => {
                            return RuleOutcome::Tok(t);
                        },
                        None => {},
                    }
                },
                LexRule::Skip(class) => {
                    if class_contains(class, c) {
                        lext.advance();
                        return RuleOutcome::Skipped;
                    }
                },
                LexRule::LineComment(c1, c2, id) => {
                    if c == *c1 {
                        return run_line_comment(lext, c, *c2, *id);
                    }
                },
                LexRule::StrLit(q, tpl) => {
                    if c == *q {
                        return run_strlit(lext, c, tpl);
                    }
                },
                LexRule::Number(tpl) => {
                    if exec_is_digit(c) {
                        return run_number(lext, tpl);
                    }
                },
                LexRule::Ident(st, ct, kws) => {
                    if class_contains(st, c) && class_contains(ct, c) {
                        let t = run_ident(lext, ct, kws);
                        return RuleOutcome::Tok(t);
                    }
                },
            }
            i += 1;
        }
        proof {
            assert(self.rules@.skip(n as int) =~= Seq::<LexRule>::empty());
        }
        RuleOutcome::NoRule
    }

    /// Tokenises the whole stream: emits the tokens of the matching rules in
    /// order, or stops at the first fatal diagnostic — a rule's own, or the
    /// no-match diagnostic pointing at a character no rule accepts.
    #[verifier::loop_isolation(false)]
    pub fn tokenize(&self, lext: Lext) -> (r: Result<Vec<Token<TokenKind>>, CompileError>)
        requires
            self.wf(),
            lext.wf(),
        ensures
            ({
                let s = lext.stream();
                let lines = lext.cursor.pos_end.lines();
                let fname = lext.cursor.pos_end.file_name@;
                let out = spec_lex(self.rules@, s, lext.pos(), self.no_match);
                match r {
                    Ok(tokens) => out matches SpecLexOut::Done(ts) && tokens@.len() == ts.len()
                        && (forall|i: int|
                        0 <= i < ts.len() ==> token_matches(
                            #[trigger] tokens@[i],
                            ts[i],
                            lines,
                            fname,
                        )),
                    Err(e) => out matches SpecLexOut::Failed(m) && err_matches(e, m, lines, fname),
                }
            }),
    {
        let ghost s = lext.stream();
        let ghost pos0 = lext.pos();
        let ghost lines = lext.cursor.pos_end.lines();
        let ghost fname = lext.cursor.pos_end.file_name@;
        let mut lext = lext;
        let mut tokens: Vec<Token<TokenKind>> = Vec::new();
        let ghost mut done: Seq<SpecToken> = Seq::empty();
        loop
            invariant
                lext.wf(),
                lext.stream() == s,
                lext.cursor.pos_end.lines() == lines,
                lext.cursor.pos_end.file_name@ == fname,
                tokens@.len() == done.len(),
                forall|i: int|
                    0 <= i < done.len() ==> token_matches(#[trigger] tokens@[i], done[i], lines, fname),
                spec_lex(self.rules@, s, pos0, self.no_match) == (match spec_lex(
                    self.rules@,
                    s,
                    lext.pos(),
                    self.no_match,
                ) {
                    SpecLexOut::Done(ts) => SpecLexOut::Done(done + ts),
                    SpecLexOut::Failed(f) => SpecLexOut::Failed(f),
                }),
            decreases s.len() - lext.pos(),
        {
            match lext.current {
                None => {
                    break ;
                },
                Some(_) => {},
            }
            lext = lext.spawn();
            proof {
                crate::cursor::lemma_cursor_stream(lext.cursor.pos_end);
                lemma_try_rules_progress(self.rules@, s, lext.pos());
            }
            let ghost p_before = lext.pos();
            match self.try_rules(&mut lext) {
                RuleOutcome::NoRule => {
                    let cur = match lext.current {
                        Some(c) => c,
                        None => unreached(),
                    };
                    let mut ctext = String::new();
                    ctext.push(cur);
                    let errpos = lext.position();
                    let mut args: Vec<String> = Vec::new();
                    args.push(ctext);
                    let inputs = args.as_slice();
                    proof {
                        assert(inputs.deep_view() =~= seq![seq![s[p_before]]]);
                    }
                    let e = self.no_match.instantiate(inputs, errpos).unwrap();
                    return Err(e);
                },
                RuleOutcome::Skipped => {},
                RuleOutcome::Tok(t) => {
                    proof {
                        let m = (match try_rules_spec(self.rules@, s, p_before) {
                            SpecRuleOut::Tok(k, e, _) => SpecToken {
                                kind: k,
                                start: p_before,
                                end: e,
                            },
                            _ => SpecToken { kind: SpecKind::Fixed(0), start: 0, end: 0 },
                        });
                        let ts_rest = (match spec_lex(self.rules@, s, lext.pos(), self.no_match) {
                            SpecLexOut::Done(ts) => ts,
                            SpecLexOut::Failed(_) => Seq::empty(),
                        });
                        if spec_lex(self.rules@, s, lext.pos(), self.no_match) is Done {
                            assert(done + (seq![m] + ts_rest) =~= (done.push(m)) + ts_rest);
                        }
                        done = done.push(m);
                    }
                    tokens.push(t);
                },
                RuleOutcome::Fail(e) => {
                    return Err(e);
                },
            }
        }
        proof {
            assert(spec_lex(self.rules@, s, lext.pos(), self.no_match) == SpecLexOut::Done(
                Seq::<SpecToken>::empty(),
            ));
            assert(done + Seq::<SpecToken>::empty() =~= done);
        }
        Ok(tokens)
    }
}

/// Parses a run of digit characters as a 32-bit integer; yields nothing
/// exactly when the value does not fit.
fn parse_u32(text: &str) -> (r: Option<u32>)
    requires
        text@.len() >= 1,
        forall|k: int| 0 <= k < text@.len() ==> is_digit(#[trigger] text@[k]),
    ensures
        r is Some <==> digits_val(text@) <= u32::MAX,
        r is Some ==> r.unwrap() == digits_val(text@),
{
    let n = text.unicode_len();
    let mut acc: u32 = 0;
    let mut i: usize = 0;
    while i < n
        invariant
            i <= n,
            n == text@.len(),
            forall|k: int| 0 <= k < text@.len() ==> is_digit(#[trigger] text@[k]),
            acc == digits_val(text@.take(i as int)),
        decreases n - i,
    {
        let c = text.get_char(i);
        let d = exec_digit_val(c);
        proof {
            assert(text@.take(i + 1).drop_last() =~= text@.take(i as int));
            assert(text@.take(i + 1).last() == c);
        }
        if acc > (u32::MAX - d) / 10 {
            proof {
                lemma_digits_val_prefix(text@, i + 1);
            }
            return None;
        }
        acc = acc * 10 + d;
        i += 1;
    }
    proof {
        assert(text@.take(n as int) =~= text@);
    }
    Some(acc)
}

} // verus!
