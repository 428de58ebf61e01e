//! Diagnostics: fixed-arity message templates, and the compile error value
//! that a failed lex or parse surfaces to the user.

use vstd::prelude::*;
use vstd::string::StringExecFns;
use crate::cursor::Position;

verus! {

/// The message of a template with segments `segs` and hole fillers `args`:
/// the first segment, then each filler followed by the next segment.
/// Meaningful when `args` has exactly one element fewer than `segs`.
pub open spec fn interleave(segs: Seq<Seq<char>>, args: Seq<Seq<char>>) -> Seq<char>
    decreases segs.len(),
{
    if segs.len() == 0 {
        Seq::empty()
    } else if segs.len() == 1 {
        segs[0]
    } else {
        segs[0] + args[0] + interleave(segs.drop_first(), args.drop_first())
    }
}

/// Adding a segment (and the filler before it) extends the message at the end.
pub proof fn lemma_interleave_push(segs: Seq<Seq<char>>, args: Seq<Seq<char>>, a: Seq<char>, s: Seq<char>)
    requires
        segs.len() >= 1,
        args.len() == segs.len() - 1,
    ensures
        interleave(segs.push(s), args.push(a)) == interleave(segs, args) + a + s,
    decreases segs.len(),
{
    if segs.len() == 1 {
        assert(segs.push(s)[0] == segs[0]);
        assert(args.push(a)[0] == a);
        assert(segs.push(s).drop_first() =~= seq![s]);
        assert(interleave(segs.push(s).drop_first(), args.push(a).drop_first()) == s);
        assert(interleave(segs.push(s), args.push(a)) == segs[0] + a + s);
        assert(interleave(segs, args) == segs[0]);
    } else {
        lemma_interleave_push(segs.drop_first(), args.drop_first(), a, s);
        assert(segs.push(s).drop_first() =~= segs.drop_first().push(s));
        assert(args.push(a).drop_first() =~= args.drop_first().push(a));
        assert(segs.push(s)[0] == segs[0]);
        assert(args.push(a)[0] == args[0]);
        assert(interleave(segs.push(s), args.push(a)) == segs[0] + args[0] + (interleave(
            segs.drop_first(),
            args.drop_first(),
        ) + a + s));
        assert(segs[0] + args[0] + (interleave(segs.drop_first(), args.drop_first()) + a + s) == (
        segs[0] + args[0] + interleave(segs.drop_first(), args.drop_first())) + a + s);
    }
}

/// A fixed-arity message template: a stable code and the literal segments
/// between which the arguments of an instantiation are spliced.
pub struct CompileErrFormatter(pub &'static str, pub Vec<&'static str>);

impl CompileErrFormatter {
    /// The literal segments as sequences of characters.
    pub open spec fn segs(&self) -> Seq<Seq<char>> {
        self.1.deep_view()
    }

    /// Splices `inputs` between the template's literal segments.
    pub fn format(&self, inputs: &[String]) -> (r: String)
        requires
            inputs@.len() + 1 == self.segs().len(),
        ensures
            r@ == interleave(self.segs(), inputs.deep_view()),
    {
        let mut string = String::new();
        let n = self.1.len();
        let mut i: usize = 0;
        while i < n
            invariant
                i <= n,
                n == self.segs().len(),
                inputs@.len() + 1 == n,
                string@ == interleave(self.segs().take(i as int), inputs.deep_view().take(
                    if i == 0 {
                        0
                    } else {
                        i - 1
                    },
                )),
            decreases n - i,
        {
            let ghost done_segs = self.segs().take(i as int);
            let ghost done_args = inputs.deep_view().take(if i == 0 { 0int } else { i - 1 });
            if i > 0 {
                string.append(inputs[i - 1].as_str());
            }
            string.append(self.1[i]);
            proof {
                if i == 0 {
                    assert(self.segs().take(1).drop_first() =~= Seq::<Seq<char>>::empty());
                    assert(self.segs().take(1) =~= seq![self.segs()[0]]);
                    assert(interleave(self.segs().take(1), inputs.deep_view().take(0))
                        == self.segs()[0]);
                } else {
                    lemma_interleave_push(
                        done_segs,
                        done_args,
                        inputs.deep_view()[i - 1],
                        self.segs()[i as int],
                    );
                    assert(self.segs().take(i + 1) =~= done_segs.push(self.segs()[i as int]));
                    assert(inputs.deep_view().take(i as int) =~= done_args.push(
                        inputs.deep_view()[i - 1],
                    ));
                }
            }
            i += 1;
        }
        proof {
            assert(self.segs().take(n as int) =~= self.segs());
            assert(inputs.deep_view().take(n - 1) =~= inputs.deep_view());
        }
        string
    }

    /// Splices `inputs` between the segments when their number fits the
    /// template's arity, and yields nothing otherwise: a wrong argument
    /// count is a defect in the grammar definition, not bad user input.
    pub fn try_format(&self, inputs: &[String]) -> (r: Option<String>)
        ensures
            r is Some <==> inputs@.len() + 1 == self.segs().len(),
            r is Some ==> r.unwrap()@ == interleave(self.segs(), inputs.deep_view()),
    {
        proof {
            assert(self.segs().len() == self.1@.len());
            assert(inputs.deep_view().len() == inputs@.len());
        }
        if self.1.len() > 0 && inputs.len() == self.1.len() - 1 {
            Some(self.format(inputs))
        } else {
            None
        }
    }
}

/// A diagnostic template: a category label for display plus the message
/// formatter, reusable across many instantiations.
pub struct CompileErrorTemplate {
    pub error_type: &'static str,
    pub fmt: CompileErrFormatter,
}

impl CompileErrorTemplate {
    pub fn new(error_type: &'static str, fmt: CompileErrFormatter) -> (r: Self)
        ensures
            r.error_type == error_type,
            r.fmt == fmt,
    {
        Self { error_type, fmt }
    }

    /// The number of literal segments; instantiations take one argument fewer.
    pub open spec fn arity(&self) -> int {
        self.fmt.segs().len() as int
    }

    /// Instantiates the template at a position. Yields the diagnostic exactly
    /// when the argument count fits the template's arity; a mismatch is an
    /// internal defect and yields nothing, so it never reaches the renderer.
    pub fn instantiate(&self, inputs: &[String], position: Position) -> (r: Option<CompileError>)
        ensures
            r is Some <==> inputs@.len() + 1 == self.arity(),
            r is Some ==> {
                let e = r.unwrap();
                &&& e.id == self.fmt.0
                &&& e.error_type == self.error_type
                &&& e.msg@ == interleave(self.fmt.segs(), inputs.deep_view())
                &&& e.position == position
            },
    {
        match self.fmt.try_format(inputs) {
            Some(msg) => Some(CompileError::new(self.fmt.0, self.error_type, msg, position)),
            None => None,
        }
    }
}

/// An instantiated diagnostic: stable code, category label, fully
/// substituted message, and the source span it points at.
#[derive(Debug)]
pub struct CompileError {
    pub id: &'static str,
    pub error_type: &'static str,
    pub msg: String,
    pub position: Position,
}

impl CompileError {
    pub fn new(id: &'static str, error_type: &'static str, msg: String, position: Position) -> (r:
        Self)
        ensures
            r.id == id,
            r.error_type == error_type,
            r.msg == msg,
            r.position == position,
    {
        CompileError { id, error_type, msg, position }
    }
}

} // verus!
