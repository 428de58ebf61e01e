//! The parsing engine: per-symbol ordered rule-chains over a token stream,
//! tried with backtracking; when every alternative fails, the failure with
//! the greatest depth (most matched steps) is reported, ties going to the
//! alternative recorded first.

use vstd::prelude::*;
use crate::cursor::Position;
use crate::diagnostic::{CompileError, CompileErrorTemplate};
use crate::lexer::{kind_text, SpecKind, TokenKind};
use crate::parxt::{spec_pos_at, Parxt};
use crate::token_node::{Node, Token};

verus! {

/// A parsed value: a consumed token, or a grammar symbol's node carrying the
/// symbol, the alternative that matched (the alternative count stands for
/// the fallback), its span, and one child per step.
#[derive(Debug)]
pub enum ParseTree {
    Leaf(Token<TokenKind>),
    Branch(usize, usize, Position, Vec<ParseTree>),
}

/// The model of a parsed value.
pub enum SpecTree {
    Leaf(SpecKind, Position),
    Branch(usize, usize, Position, Seq<SpecTree>),
}

/// An executable tree realises its model when kinds, symbols, alternatives,
/// spans and children all agree.
pub open spec fn tree_matches(t: ParseTree, m: SpecTree) -> bool
    decreases t,
{
    match t {
        ParseTree::Leaf(tok) => m matches SpecTree::Leaf(k, p) && tok.token_type@ == k
            && tok.position == p,
        ParseTree::Branch(sy, al, pos, ch) => m matches SpecTree::Branch(sy2, al2, pos2, ch2) && sy
            == sy2 && al == al2 && pos == pos2 && ch@.len() == ch2.len() && (forall|i: int|
            0 <= i < ch@.len() ==> tree_matches(#[trigger] ch@[i], ch2[i])),
    }
}

/// What a token-pattern step accepts: one fixed kind, or any token of a
/// payload-carrying kind (binding its payload).
pub enum TokenPat {
    Fixed(u32),
    AnyInt,
    AnyFloat,
    AnyStr,
    AnyIdent,
}

pub open spec fn pat_matches(p: TokenPat, k: SpecKind) -> bool {
    match p {
        TokenPat::Fixed(id) => k == SpecKind::Fixed(id),
        TokenPat::AnyInt => k is Int,
        TokenPat::AnyFloat => k is Float,
        TokenPat::AnyStr => k is Str,
        TokenPat::AnyIdent => k is Ident,
    }
}

fn exec_pat_matches(p: &TokenPat, k: &TokenKind) -> (r: bool)
    ensures
        r == pat_matches(*p, k@),
{
    match (p, k) {
        (TokenPat::Fixed(id), TokenKind::Fixed(id2)) => *id == *id2,
        (TokenPat::AnyInt, TokenKind::Int(_)) => true,
        (TokenPat::AnyFloat, TokenKind::Float(_)) => true,
        (TokenPat::AnyStr, TokenKind::Str(_)) => true,
        (TokenPat::AnyIdent, TokenKind::Ident(_)) => true,
        _ => false,
    }
}

/// One required step of an alternative: a token pattern (with the diagnostic
/// raised when the step's token does not match), or another symbol's parse.
pub enum Step {
    Tok(TokenPat, CompileErrorTemplate),
    Sym(usize),
}

/// One alternative: a chain of required steps.
pub struct Alt {
    pub steps: Vec<Step>,
}

/// What a symbol does when every alternative fails at depth zero: raise its
/// own diagnostic, delegate to another symbol, or succeed with an empty node.
pub enum Fallback {
    Raise(CompileErrorTemplate),
    Delegate(usize),
    Empty,
}

/// One grammar symbol: its ordered alternatives and its fallback.
pub struct SymbolDef {
    pub alts: Vec<Alt>,
    pub fallback: Fallback,
}

/// A whole grammar, plus the diagnostic raised when the engine's recursion
/// budget runs out.
pub struct Grammar {
    pub symbols: Vec<SymbolDef>,
    pub limit: CompileErrorTemplate,
}

/// Depth arithmetic saturates at the largest 8-bit depth.
pub open spec fn sat8(a: int) -> int {
    if a > 255 {
        255
    } else {
        a
    }
}

/// The diagnostic model a template yields at a position; a template of arity
/// two takes the current token's text as its one argument.
pub struct SpecPDiag {
    pub id: Seq<char>,
    pub category: Seq<char>,
    pub msg: Seq<char>,
    pub position: Position,
}

pub open spec fn flex_args(tpl: CompileErrorTemplate, text: Seq<char>) -> Seq<Seq<char>> {
    if tpl.arity() == 2 {
        seq![text]
    } else {
        seq![]
    }
}

pub open spec fn tpl_pdiag(tpl: CompileErrorTemplate, text: Seq<char>, position: Position) -> SpecPDiag {
    SpecPDiag {
        id: tpl.fmt.0@,
        category: tpl.error_type@,
        msg: crate::diagnostic::interleave(tpl.fmt.segs(), flex_args(tpl, text)),
        position,
    }
}

/// An executable diagnostic realises its model.
pub open spec fn pdiag_matches(e: CompileError, m: SpecPDiag) -> bool {
    &&& e.id@ == m.id
    &&& e.error_type@ == m.category
    &&& e.msg@ == m.msg
    &&& e.position == m.position
}

/// The display text of the token at `idx`, or a single space past the end.
pub open spec fn text_at(toks: Seq<Token<TokenKind>>, idx: int) -> Seq<char> {
    if 0 <= idx < toks.len() {
        kind_text(toks[idx].token_type@)
    } else {
        seq![' ']
    }
}

/// The span a node covers: from the position the parse entered at to the
/// position the cursor stands at after the last consumed step.
pub open spec fn node_pos(toks: Seq<Token<TokenKind>>, i0: int, i1: int) -> Position {
    Position(spec_pos_at(toks, i0).0, spec_pos_at(toks, i1).1)
}

/// What a chain of steps produces: the children and the index behind the
/// consumed tokens, or the failure's depth and diagnostic.
pub enum StepsRes {
    SOk(Seq<SpecTree>, int),
    SErr(int, SpecPDiag),
}

/// What trying a symbol's alternatives produces: the matching alternative's
/// index, children and end index, or the deepest recorded failure (the
/// first-recorded winning ties), if any alternative got far enough to record
/// one.
pub enum AltsRes {
    AOk(int, Seq<SpecTree>, int),
    AErr(Option<(int, SpecPDiag)>),
}

/// What parsing a symbol produces.
pub enum SpecPRes {
    POk(SpecTree, int),
    PErr(int, SpecPDiag),
}

/// Runs a chain of required steps from token index `idx`.
pub open spec fn spec_run_steps(
    g: Grammar,
    toks: Seq<Token<TokenKind>>,
    idx: int,
    steps: Seq<Step>,
    fuel: nat,
) -> StepsRes
    decreases fuel, 0int, steps.len(),
{
    if steps.len() == 0 {
        StepsRes::SOk(seq![], idx)
    } else {
        match steps[0] {
            Step::Tok(pat, tpl) => {
                if 0 <= idx < toks.len() && pat_matches(pat, toks[idx].token_type@) {
                    match spec_run_steps(g, toks, idx + 1, steps.drop_first(), fuel) {
                        StepsRes::SOk(ch, ni) => StepsRes::SOk(
                            seq![SpecTree::Leaf(toks[idx].token_type@, toks[idx].position)] + ch,
                            ni,
                        ),
                        StepsRes::SErr(d, e) => StepsRes::SErr(sat8(d + 1), e),
                    }
                } else {
                    StepsRes::SErr(0, tpl_pdiag(tpl, text_at(toks, idx), spec_pos_at(toks, idx)))
                }
            },
            Step::Sym(s2) => {
                if fuel == 0 {
                    StepsRes::SErr(
                        0,
                        tpl_pdiag(g.limit, text_at(toks, idx), spec_pos_at(toks, idx)),
                    )
                } else {
                    match spec_parse_sym(g, toks, idx, s2 as int, (fuel - 1) as nat) {
                        SpecPRes::POk(m, ni) => match spec_run_steps(
                            g,
                            toks,
                            ni,
                            steps.drop_first(),
                            fuel,
                        ) {
                            StepsRes::SOk(ch, ni2) => StepsRes::SOk(seq![m] + ch, ni2),
                            StepsRes::SErr(d, e) => StepsRes::SErr(sat8(d + 1), e),
                        },
                        SpecPRes::PErr(d, e) => StepsRes::SErr(d, e),
                    }
                }
            },
        }
    }
}

/// The deeper of a recorded failure and a later result; the earlier failure
/// wins ties.
pub open spec fn combine_best(cur: Option<(int, SpecPDiag)>, rest: AltsRes) -> AltsRes {
    match rest {
        AltsRes::AOk(ai, ch, ni) => AltsRes::AOk(ai, ch, ni),
        AltsRes::AErr(best) => match cur {
            None => AltsRes::AErr(best),
            Some((d, e)) => match best {
                None => AltsRes::AErr(Some((d, e))),
                Some((d2, e2)) => if d2 > d {
                    AltsRes::AErr(Some((d2, e2)))
                } else {
                    AltsRes::AErr(Some((d, e)))
                },
            },
        },
    }
}

/// Tries the alternatives in declaration order, each against an independent
/// cursor; the first one whose whole chain matches wins.
pub open spec fn spec_try_alts(
    g: Grammar,
    toks: Seq<Token<TokenKind>>,
    idx: int,
    alts: Seq<Alt>,
    alt_ofs: int,
    fuel: nat,
) -> AltsRes
    decreases fuel, 1int, alts.len(),
{
    if alts.len() == 0 {
        AltsRes::AErr(None)
    } else {
        match spec_run_steps(g, toks, idx, alts[0].steps@, fuel) {
            StepsRes::SOk(ch, ni) => AltsRes::AOk(alt_ofs, ch, ni),
            StepsRes::SErr(d, e) => combine_best(
                Some((d, e)),
                spec_try_alts(g, toks, idx, alts.drop_first(), alt_ofs + 1, fuel),
            ),
        }
    }
}

/// Parses one grammar symbol at token index `idx`. A recorded failure of
/// positive depth beats the fallback; otherwise the fallback decides.
pub open spec fn spec_parse_sym(
    g: Grammar,
    toks: Seq<Token<TokenKind>>,
    idx: int,
    sym: int,
    fuel: nat,
) -> SpecPRes
    decreases fuel, 2int, 0int,
{
    if !(0 <= sym < g.symbols@.len()) {
        SpecPRes::PErr(0, tpl_pdiag(g.limit, text_at(toks, idx), spec_pos_at(toks, idx)))
    } else {
        let sd = g.symbols@[sym];
        match spec_try_alts(g, toks, idx, sd.alts@, 0, fuel) {
            AltsRes::AOk(ai, ch, ni) => SpecPRes::POk(
                SpecTree::Branch(sym as usize, ai as usize, node_pos(toks, idx, ni), ch),
                ni,
            ),
            AltsRes::AErr(best) => {
                if best matches Some((d, e)) && d > 0 {
                    SpecPRes::PErr(best.unwrap().0, best.unwrap().1)
                } else {
                    match sd.fallback {
                        Fallback::Raise(tpl) => SpecPRes::PErr(
                            0,
                            tpl_pdiag(tpl, text_at(toks, idx), spec_pos_at(toks, idx)),
                        ),
                        Fallback::Delegate(s2) => {
                            if fuel == 0 {
                                SpecPRes::PErr(
                                    0,
                                    tpl_pdiag(g.limit, text_at(toks, idx), spec_pos_at(toks, idx)),
                                )
                            } else {
                                match spec_parse_sym(g, toks, idx, s2 as int, (fuel - 1) as nat) {
                                    SpecPRes::POk(m, ni) => SpecPRes::POk(
                                        SpecTree::Branch(
                                            sym as usize,
                                            sd.alts@.len() as usize,
                                            node_pos(toks, idx, ni),
                                            seq![m],
                                        ),
                                        ni,
                                    ),
                                    SpecPRes::PErr(d, e) => SpecPRes::PErr(d, e),
                                }
                            }
                        },
                        Fallback::Empty => SpecPRes::POk(
                            SpecTree::Branch(
                                sym as usize,
                                sd.alts@.len() as usize,
                                node_pos(toks, idx, idx),
                                seq![],
                            ),
                            idx,
                        ),
                    }
                }
            },
        }
    }
}

/// Splices already-parsed children (and the steps they stand for) in front
/// of the rest of a chain's outcome.
pub open spec fn steps_compose(done: Seq<SpecTree>, rest: StepsRes) -> StepsRes {
    match rest {
        StepsRes::SOk(ch, ni) => StepsRes::SOk(done + ch, ni),
        StepsRes::SErr(d, e) => StepsRes::SErr(
            if done.len() == 0 {
                d
            } else {
                sat8(d + done.len())
            },
            e,
        ),
    }
}

/// Records one more failure against the best one so far; the earlier record
/// wins ties.
pub open spec fn merge_best(cur: Option<(int, SpecPDiag)>, d: int, e: SpecPDiag) -> Option<
    (int, SpecPDiag),
> {
    match cur {
        None => Some((d, e)),
        Some((dc, ec)) => if d > dc {
            Some((d, e))
        } else {
            Some((dc, ec))
        },
    }
}

/// Folding failures one at a time agrees with combining them afterwards.
pub proof fn lemma_combine_assoc(
    cur: Option<(int, SpecPDiag)>,
    d: int,
    e: SpecPDiag,
    rest: AltsRes,
)
    ensures
        combine_best(cur, combine_best(Some((d, e)), rest)) == combine_best(
            merge_best(cur, d, e),
            rest,
        ),
{
}

/// Duplicates a token; the file contents behind its position stay shared.
fn tok_dup(t: &Token<TokenKind>) -> (r: Token<TokenKind>)
    ensures
        r == *t,
{
    Token {
        position: Position(t.position.0.dupe(), t.position.1.dupe()),
        token_type: match &t.token_type {
            TokenKind::Fixed(id) => TokenKind::Fixed(*id),
            TokenKind::Int(v) => TokenKind::Int(*v),
            TokenKind::Float(s) => TokenKind::Float(s.clone()),
            TokenKind::Str(s) => TokenKind::Str(s.clone()),
            TokenKind::Ident(s) => TokenKind::Ident(s.clone()),
        },
    }
}

/// Duplicates a position.
fn pos_dup(p: &Position) -> (r: Position)
    ensures
        r == *p,
{
    Position(p.0.dupe(), p.1.dupe())
}

/// Saturating depth addition.
fn dep_add(a: u8, b: u8) -> (r: u8)
    ensures
        r == sat8(a as int + b as int),
{
    if a > 255 - b {
        255
    } else {
        a + b
    }
}

/// The display text of the token under the cursor, or a space at the end of
/// the stream.
fn cur_text<'a>(parxt: &Parxt<'a, TokenKind>) -> (r: String)
    ensures
        r@ == text_at(parxt.tokens@, parxt.idx as int),
{
    match parxt.current_token() {
        Some(t) => t.token_type.to_text(),
        None => {
            let mut s = String::new();
            s.push(' ');
            proof {
                assert(Seq::<char>::empty().push(' ') =~= seq![' ']);
            }
            s
        },
    }
}

/// Builds the diagnostic a template yields here: a template of arity two
/// takes the current token's text, one of arity one takes no argument.
fn flex_diag(tpl: &CompileErrorTemplate, position: Position, text: String) -> (e: CompileError)
    requires
        tpl.arity() == 1 || tpl.arity() == 2,
    ensures
        pdiag_matches(e, tpl_pdiag(*tpl, text@, position)),
{
    if tpl.fmt.1.len() == 2 {
        let ghost tv = text@;
        let mut args: Vec<String> = Vec::new();
        args.push(text);
        let inputs = args.as_slice();
        proof {
            assert(inputs.deep_view() =~= seq![tv]);
        }
        tpl.instantiate(inputs, position).unwrap()
    } else {
        let args: Vec<String> = Vec::new();
        let inputs = args.as_slice();
        proof {
            assert(inputs.deep_view() =~= Seq::<Seq<char>>::empty());
        }
        tpl.instantiate(inputs, position).unwrap()
    }
}

impl Grammar {
    /// A grammar the engine can run: every referenced symbol exists and the
    /// diagnostic templates can take the current token's text, or nothing.
    pub open spec fn wf(&self) -> bool {
        &&& self.limit.arity() == 1 || self.limit.arity() == 2
        &&& forall|i: int|
            0 <= i < self.symbols@.len() ==> (#[trigger] self.symbols@[i]).wf(self.symbols@.len() as int)
    }
}

impl SymbolDef {
    pub open spec fn wf(&self, n_symbols: int) -> bool {
        &&& (forall|i: int| 0 <= i < self.alts@.len() ==> (#[trigger] self.alts@[i]).wf(n_symbols))
        &&& match self.fallback {
            Fallback::Raise(tpl) => tpl.arity() == 1 || tpl.arity() == 2,
            Fallback::Delegate(s2) => 0 <= s2 < n_symbols,
            Fallback::Empty => true,
        }
    }
}

impl Alt {
    pub open spec fn wf(&self, n_symbols: int) -> bool {
        forall|i: int|
            0 <= i < self.steps@.len() ==> match #[trigger] self.steps@[i] {
                Step::Tok(_, tpl) => tpl.arity() == 1 || tpl.arity() == 2,
                Step::Sym(s2) => 0 <= s2 < n_symbols,
            }
    }

    /// Decides [`Alt::wf`] at run time.
    #[verifier::loop_isolation(false)]
    fn check_wf(&self, n_symbols: usize) -> (r: bool)
        ensures
            r == self.wf(n_symbols as int),
    {
        let n = self.steps.len();
        let mut i: usize = 0;
        while i < n
            invariant
                i <= n,
                n == self.steps@.len(),
                forall|k: int|
                    0 <= k < i ==> match #[trigger] self.steps@[k] {
                        Step::Tok(_, tpl) => tpl.arity() == 1 || tpl.arity() == 2,
                        Step::Sym(s2) => 0 <= s2 < n_symbols,
                    },
            decreases n - i,
        {
            let ok = match &self.steps[i] {
                Step::Tok(_, tpl) => tpl.fmt.1.len() == 1 || tpl.fmt.1.len() == 2,
                Step::Sym(s2) => *s2 < n_symbols,
            };
            if !ok {
                return false;
            }
            i += 1;
        }
        true
    }
}

impl Grammar {
    /// Decides [`Grammar::wf`] at run time, for callers that assemble
    /// grammars dynamically.
    #[verifier::loop_isolation(false)]
    pub fn check_wf(&self) -> (r: bool)
        ensures
            r == self.wf(),
    {
        if !(self.limit.fmt.1.len() == 1 || self.limit.fmt.1.len() == 2) {
            return false;
        }
        let n = self.symbols.len();
        let mut i: usize = 0;
        while i < n
            invariant
                i <= n,
                n == self.symbols@.len(),
                forall|k: int| 0 <= k < i ==> (#[trigger] self.symbols@[k]).wf(n as int),
            decreases n - i,
        {
            let sd = &self.symbols[i];
            let fallback_ok = match &sd.fallback {
                Fallback::Raise(tpl) => tpl.fmt.1.len() == 1 || tpl.fmt.1.len() == 2,
                Fallback::Delegate(s2) => *s2 < n,
                Fallback::Empty => true,
            };
            if !fallback_ok {
                return false;
            }
            let m = sd.alts.len();
            let mut j: usize = 0;
            while j < m
                invariant
                    j <= m,
                    m == sd.alts@.len(),
                    n == self.symbols@.len(),
                    sd == self.symbols@[i as int],
                    forall|k: int| 0 <= k < j ==> (#[trigger] sd.alts@[k]).wf(n as int),
                decreases m - j,
            {
                if !sd.alts[j].check_wf(n) {
                    return false;
                }
                j += 1;
            }
            i += 1;
        }
        true
    }
}

/// Runs one alternative's chain of required steps against `child`.
#[verifier::loop_isolation(false)]
fn run_alt<'a>(g: &Grammar, child: &mut Parxt<'a, TokenKind>, alt: &Alt, fuel: u32) -> (r: Result<
    Vec<ParseTree>,
    (u8, CompileError),
>)
    requires
        g.wf(),
        old(child).wf(),
        alt.wf(g.symbols@.len() as int),
        old(child).idx <= old(child).tokens@.len(),
    ensures
        final(child).tokens@ == old(child).tokens@,
        ({
            let out = spec_run_steps(
                *g,
                old(child).tokens@,
                old(child).idx as int,
                alt.steps@,
                fuel as nat,
            );
            match r {
                Ok(ch) => out matches StepsRes::SOk(chm, ni) && ch@.len() == chm.len() && (forall|
                    i: int,
                |
                    0 <= i < chm.len() ==> tree_matches(#[trigger] ch@[i], chm[i]))
                    && final(child).idx == ni && ni <= old(child).tokens@.len()
                    && final(child).wf(),
                Err((d, e)) => out matches StepsRes::SErr(d2, m) && d == d2 && pdiag_matches(e, m),
            }
        }),
    decreases fuel, 0int,
{
    let ghost toks = old(child).tokens@;
    let ghost idx0 = old(child).idx as int;
    let n = alt.steps.len();
    let mut children: Vec<ParseTree> = Vec::new();
    let ghost mut done: Seq<SpecTree> = Seq::empty();
    let mut depth: u8 = 0;
    let mut i: usize = 0;
    proof {
        assert(alt.steps@.skip(0) =~= alt.steps@);
        match spec_run_steps(*g, toks, idx0, alt.steps@, fuel as nat) {
            StepsRes::SOk(ch, _) => {
                assert(Seq::<SpecTree>::empty() + ch =~= ch);
            },
            StepsRes::SErr(_, _) => {},
        }
    }
    while i < n
        invariant
            i <= n,
            n == alt.steps@.len(),
            child.wf(),
            child.tokens@ == toks,
            child.idx <= toks.len(),
            children@.len() == done.len(),
            forall|k: int| 0 <= k < done.len() ==> tree_matches(#[trigger] children@[k], done[k]),
            depth as int == sat8(done.len() as int),
            spec_run_steps(*g, toks, idx0, alt.steps@, fuel as nat) == steps_compose(
                done,
                spec_run_steps(*g, toks, child.idx as int, alt.steps@.skip(i as int), fuel as nat),
            ),
        decreases n - i,
    {
        let ghost rem = alt.steps@.skip(i as int);
        let ghost cur_idx = child.idx as int;
        proof {
            assert(rem[0] == alt.steps@[i as int]);
            assert(rem.drop_first() =~= alt.steps@.skip(i + 1));
        }
        match &alt.steps[i] {
            Step::Tok(pat, tpl) => {
                let mut matched = false;
                match child.current_token() {
                    Some(t) => {
                        if exec_pat_matches(pat, &t.token_type) {
                            matched = true;
                        }
                    },
                    None => {},
                }
                if matched {
                    let t = match child.current_token() {
                        Some(t) => t,
                        None => {
                            proof {
                                assert(false);
                            }
                            unreached()
                        },
                    };
                    let leaf = ParseTree::Leaf(tok_dup(t));
                    let ghost leaf_m = SpecTree::Leaf(
                        toks[cur_idx].token_type@,
                        toks[cur_idx].position,
                    );
                    children.push(leaf);
                    child.advance();
                    depth = dep_add(depth, 1);
                    proof {
                        let rest = spec_run_steps(
                            *g,
                            toks,
                            cur_idx + 1,
                            alt.steps@.skip(i + 1),
                            fuel as nat,
                        );
                        match rest {
                            StepsRes::SOk(ch, ni) => {
                                assert(done + (seq![leaf_m] + ch) =~= done.push(leaf_m) + ch);
                            },
                            StepsRes::SErr(d, e) => {
                                assert(sat8(sat8(d + 1) + done.len()) == sat8(
                                    d + done.push(leaf_m).len(),
                                ));
                            },
                        }
                        done = done.push(leaf_m);
                    }
                    i += 1;
                } else {
                    let text = cur_text(child);
                    let pos = child.position();
                    let e = flex_diag(tpl, pos, text);
                    return Err((depth, e));
                }
            },
            Step::Sym(s2) => {
                if fuel == 0 {
                    let text = cur_text(child);
                    let pos = child.position();
                    let e = flex_diag(&g.limit, pos, text);
                    return Err((depth, e));
                }
                match parse_symbol(g, child, *s2, fuel - 1) {
                    Ok(node) => {
                        let ghost node_m = (match spec_parse_sym(
                            *g,
                            toks,
                            cur_idx,
                            *s2 as int,
                            (fuel - 1) as nat,
                        ) {
                            SpecPRes::POk(m, _) => m,
                            SpecPRes::PErr(_, _) => SpecTree::Leaf(
                                SpecKind::Fixed(0),
                                node.position,
                            ),
                        });
                        children.push(node.node);
                        depth = dep_add(depth, 1);
                        proof {
                            let rest = spec_run_steps(
                                *g,
                                toks,
                                child.idx as int,
                                alt.steps@.skip(i + 1),
                                fuel as nat,
                            );
                            match rest {
                                StepsRes::SOk(ch, ni) => {
                                    assert(done + (seq![node_m] + ch) =~= done.push(node_m) + ch);
                                },
                                StepsRes::SErr(d, e) => {
                                    assert(sat8(sat8(d + 1) + done.len()) == sat8(
                                        d + done.push(node_m).len(),
                                    ));
                                },
                            }
                            done = done.push(node_m);
                        }
                        i += 1;
                    },
                    Err((d, e)) => {
                        return Err((dep_add(d, depth), e));
                    },
                }
            },
        }
    }
    proof {
        assert(alt.steps@.skip(n as int) =~= Seq::<Step>::empty());
        assert(done + Seq::<SpecTree>::empty() =~= done);
    }
    Ok(children)
}

/// Parses one grammar symbol: tries its alternatives in declaration order,
/// each against an independent spawned cursor; the first whole match is
/// committed. On total failure the deepest recorded failure is reported, or
/// the symbol's fallback decides when no failure got past its first step.
#[verifier::loop_isolation(false)]
pub fn parse_symbol<'a>(
    g: &Grammar,
    parxt: &mut Parxt<'a, TokenKind>,
    sym: usize,
    fuel: u32,
) -> (r: Result<Node<ParseTree>, (u8, CompileError)>)
    requires
        g.wf(),
        old(parxt).wf(),
        sym < g.symbols@.len(),
        old(parxt).idx <= old(parxt).tokens@.len(),
    ensures
        final(parxt).tokens@ == old(parxt).tokens@,
        ({
            let out = spec_parse_sym(
                *g,
                old(parxt).tokens@,
                old(parxt).idx as int,
                sym as int,
                fuel as nat,
            );
            match r {
                Ok(node) => out matches SpecPRes::POk(m, ni) && tree_matches(node.node, m)
                    && node.position == node_pos(old(parxt).tokens@, old(parxt).idx as int, ni)
                    && final(parxt).idx == ni && ni <= old(parxt).tokens@.len()
                    && final(parxt).wf(),
                Err((d, e)) => out matches SpecPRes::PErr(d2, m) && d == d2 && pdiag_matches(e, m)
                    && *final(parxt) == *old(parxt),
            }
        }),
    decreases fuel, 1int,
{
    let ghost toks = old(parxt).tokens@;
    let ghost idx0 = old(parxt).idx as int;
    let start_pos = parxt.position();
    let sd = &g.symbols[sym];
    let n_alts = sd.alts.len();
    let mut best: Option<(u8, CompileError)> = None;
    let ghost mut best_m: Option<(int, SpecPDiag)> = None;
    let mut ai: usize = 0;
    proof {
        assert(sd.alts@.skip(0) =~= sd.alts@);
    }
    while ai < n_alts
        invariant
            ai <= n_alts,
            n_alts == sd.alts@.len(),
            *parxt == *old(parxt),
            match (best, best_m) {
                (None, None) => true,
                (Some((d, e)), Some((dm, em))) => d as int == dm && pdiag_matches(e, em),
                _ => false,
            },
            spec_try_alts(*g, toks, idx0, sd.alts@, 0, fuel as nat) == combine_best(
                best_m,
                spec_try_alts(*g, toks, idx0, sd.alts@.skip(ai as int), ai as int, fuel as nat),
            ),
        decreases n_alts - ai,
    {
        proof {
            assert(sd.alts@.skip(ai as int)[0] == sd.alts@[ai as int]);
            assert(sd.alts@.skip(ai as int).drop_first() =~= sd.alts@.skip(ai + 1));
        }
        let mut child = parxt.spawn();
        match run_alt(g, &mut child, &sd.alts[ai], fuel) {
            Ok(children) => {
                *parxt = child;
                let endp = parxt.position();
                let node_position = start_pos.combine(&endp);
                let bpos = pos_dup(&node_position);
                return Ok(
                    Node::new(node_position, ParseTree::Branch(sym, ai, bpos, children)),
                );
            },
            Err((d, e)) => {
                let ghost em = (match spec_run_steps(
                    *g,
                    toks,
                    idx0,
                    sd.alts@[ai as int].steps@,
                    fuel as nat,
                ) {
                    StepsRes::SErr(_, m) => m,
                    _ => tpl_pdiag(g.limit, seq![], start_pos),
                });
                proof {
                    lemma_combine_assoc(
                        best_m,
                        d as int,
                        em,
                        spec_try_alts(
                            *g,
                            toks,
                            idx0,
                            sd.alts@.skip(ai + 1),
                            ai + 1,
                            fuel as nat,
                        ),
                    );
                }
                let replace = match &best {
                    None => true,
                    Some((db, _)) => d > *db,
                };
                if replace {
                    best = Some((d, e));
                }
                proof {
                    best_m = merge_best(best_m, d as int, em);
                }
            },
        }
        ai += 1;
    }
    proof {
        assert(sd.alts@.skip(n_alts as int) =~= Seq::<Alt>::empty());
    }
    match best {
        Some((d, e)) => {
            if d > 0 {
                return Err((d, e));
            }
        },
        None => {},
    }
    match &sd.fallback {
        Fallback::Raise(tpl) => {
            let text = cur_text(parxt);
            let pos = parxt.position();
            let e = flex_diag(tpl, pos, text);
            Err((0, e))
        },
        Fallback::Delegate(s2) => {
            if fuel == 0 {
                let text = cur_text(parxt);
                let pos = parxt.position();
                let e = flex_diag(&g.limit, pos, text);
                Err((0, e))
            } else {
                match parse_symbol(g, parxt, *s2, fuel - 1) {
                    Ok(node) => {
                        let endp = parxt.position();
                        let node_position = start_pos.combine(&endp);
                        let bpos = pos_dup(&node_position);
                        let mut ch: Vec<ParseTree> = Vec::new();
                        ch.push(node.node);
                        Ok(Node::new(node_position, ParseTree::Branch(sym, n_alts, bpos, ch)))
                    },
                    Err((d, e)) => Err((d, e)),
                }
            }
        },
        Fallback::Empty => {
            let endp = parxt.position();
            let node_position = start_pos.combine(&endp);
            let bpos = pos_dup(&node_position);
            Ok(Node::new(node_position, ParseTree::Branch(sym, n_alts, bpos, Vec::new())))
        },
    }
}

/// What parsing a whole program produces: the root nodes, or the first
/// failure.
pub enum ProgRes {
    PDone(Seq<SpecTree>),
    PFail(int, SpecPDiag),
}

/// Parses the root symbol over and over until the tokens are exhausted; the
/// first failure is fatal, and a parse that consumes nothing is reported as
/// a defect in the grammar.
pub open spec fn spec_program(
    g: Grammar,
    toks: Seq<Token<TokenKind>>,
    idx: int,
    root: int,
    fuel: nat,
) -> ProgRes
    decreases toks.len() - idx,
{
    if idx < 0 || idx >= toks.len() {
        ProgRes::PDone(seq![])
    } else {
        match spec_parse_sym(g, toks, idx, root, fuel) {
            SpecPRes::PErr(d, e) => ProgRes::PFail(d, e),
            SpecPRes::POk(m, ni) => {
                if ni <= idx || ni > toks.len() {
                    ProgRes::PFail(
                        0,
                        tpl_pdiag(g.limit, text_at(toks, ni), spec_pos_at(toks, ni)),
                    )
                } else {
                    match spec_program(g, toks, ni, root, fuel) {
                        ProgRes::PDone(ts) => ProgRes::PDone(seq![m] + ts),
                        ProgRes::PFail(d, e) => ProgRes::PFail(d, e),
                    }
                }
            },
        }
    }
}

/// Splices already-parsed root nodes in front of the rest of a program run.
pub open spec fn prog_compose(done: Seq<SpecTree>, rest: ProgRes) -> ProgRes {
    match rest {
        ProgRes::PDone(ts) => ProgRes::PDone(done + ts),
        ProgRes::PFail(d, e) => ProgRes::PFail(d, e),
    }
}

/// Parses the root symbol repeatedly until the token stream is exhausted.
/// An empty stream yields no nodes; the first failure is fatal.
#[verifier::loop_isolation(false)]
pub fn parse_program<'a>(
    g: &Grammar,
    tokens: &'a [Token<TokenKind>],
    root: usize,
    fuel: u32,
) -> (r: Result<Vec<Node<ParseTree>>, (u8, CompileError)>)
    requires
        g.wf(),
        root < g.symbols@.len(),
        tokens@.len() <= 65000,
        forall|i: int|
            0 <= i < tokens@.len() ==> (#[trigger] tokens@[i]).position.1.ln_idx <= 65002,
    ensures
        ({
            let out = spec_program(*g, tokens@, 0, root as int, fuel as nat);
            match r {
                Ok(nodes) => out matches ProgRes::PDone(ts) && nodes@.len() == ts.len() && (forall|
                    i: int,
                |
                    0 <= i < ts.len() ==> tree_matches(#[trigger] nodes@[i].node, ts[i])),
                Err((d, e)) => out matches ProgRes::PFail(d2, m) && d as int == d2
                    && pdiag_matches(e, m),
            }
        }),
{
    let ghost toks = tokens@;
    if tokens.len() == 0 {
        return Ok(Vec::new());
    }
    let mut parxt = Parxt::new(tokens);
    let mut nodes: Vec<Node<ParseTree>> = Vec::new();
    let ghost mut done: Seq<SpecTree> = Seq::empty();
    proof {
        match spec_program(*g, toks, 0, root as int, fuel as nat) {
            ProgRes::PDone(ts) => {
                assert(Seq::<SpecTree>::empty() + ts =~= ts);
            },
            ProgRes::PFail(_, _) => {},
        }
    }
    loop
        invariant
            parxt.wf(),
            parxt.tokens@ == toks,
            parxt.idx <= toks.len(),
            nodes@.len() == done.len(),
            forall|k: int| 0 <= k < done.len() ==> tree_matches(#[trigger] nodes@[k].node, done[k]),
            spec_program(*g, toks, 0, root as int, fuel as nat) == prog_compose(
                done,
                spec_program(*g, toks, parxt.idx as int, root as int, fuel as nat),
            ),
        decreases toks.len() - parxt.idx,
    {
        match parxt.current_token() {
            None => {
                break ;
            },
            Some(_) => {},
        }
        let prev_idx = parxt.idx;
        match parse_symbol(g, &mut parxt, root, fuel) {
            Ok(node) => {
                if parxt.idx <= prev_idx {
                    let text = cur_text(&parxt);
                    let pos = parxt.position();
                    let e = flex_diag(&g.limit, pos, text);
                    return Err((0, e));
                }
                let ghost m = (match spec_parse_sym(
                    *g,
                    toks,
                    prev_idx as int,
                    root as int,
                    fuel as nat,
                ) {
                    SpecPRes::POk(m, _) => m,
                    SpecPRes::PErr(_, _) => SpecTree::Branch(0, 0, node.position, seq![]),
                });
                proof {
                    match spec_program(*g, toks, parxt.idx as int, root as int, fuel as nat) {
                        ProgRes::PDone(ts) => {
                            assert(done + (seq![m] + ts) =~= done.push(m) + ts);
                        },
                        ProgRes::PFail(_, _) => {},
                    }
                    done = done.push(m);
                }
                nodes.push(node);
            },
            Err((d, e)) => {
                return Err((d, e));
            },
        }
    }
    proof {
        assert(done + Seq::<SpecTree>::empty() =~= done);
    }
    Ok(nodes)
}

/// Furthest-failure arbitration, on a symbol of two alternatives: when both
/// alternatives fail and the first failure is at least as deep as the second
/// and got past its first step, the first failure is the one reported. In
/// particular a deeper failure always beats a shallower one, and on equal
/// depth the alternative declared first wins.
pub proof fn lemma_furthest_failure(
    g: Grammar,
    toks: Seq<Token<TokenKind>>,
    idx: int,
    sym: int,
    fuel: nat,
    da: int,
    ea: SpecPDiag,
    db: int,
    eb: SpecPDiag,
)
    requires
        0 <= sym < g.symbols@.len(),
        g.symbols@[sym].alts@.len() == 2,
        spec_run_steps(g, toks, idx, g.symbols@[sym].alts@[0].steps@, fuel) == StepsRes::SErr(
            da,
            ea,
        ),
        spec_run_steps(g, toks, idx, g.symbols@[sym].alts@[1].steps@, fuel) == StepsRes::SErr(
            db,
            eb,
        ),
        da >= db,
        da > 0,
    ensures
        spec_parse_sym(g, toks, idx, sym, fuel) == SpecPRes::PErr(da, ea),
{
    let alts = g.symbols@[sym].alts@;
    assert(alts.drop_first()[0] == alts[1]);
    assert(alts.drop_first().drop_first() =~= Seq::<Alt>::empty());
    assert(spec_try_alts(g, toks, idx, alts.drop_first().drop_first(), 2, fuel) == AltsRes::AErr(
        None,
    ));
    assert(spec_try_alts(g, toks, idx, alts.drop_first(), 1, fuel) == AltsRes::AErr(
        Some((db, eb)),
    ));
    assert(spec_try_alts(g, toks, idx, alts, 0, fuel) == AltsRes::AErr(Some((da, ea))));
}

} // verus!
