//! The driver: feeds tokens to the path tracker and surfaces each leaf as a
//! (path, value) pair.

use vstd::prelude::*;
use crate::json_path::{at_rest, push_spec, settled, JsonPath, PathElement, PathFault, PathState};
use crate::render::{path_text, ToJsonPath};
use crate::token::{LeafValue, StackElement};

verus! {

/// Why a traversal stopped.
#[derive(Debug, Clone, PartialEq, Eq)]
pub enum IndexError {
    /// The token stream broke the nesting of a JSON document.
    Structure(PathFault),
    /// A number literal that does not decode as a number.
    InvalidNumber(String),
}

/// An emitted pair, with its path as text.
pub open spec fn pair_view(p: (String, LeafValue)) -> (Seq<char>, LeafValue) {
    (p.0@, p.1)
}

pub open spec fn pairs_view(v: Seq<(String, LeafValue)>) -> Seq<(Seq<char>, LeafValue)> {
    v.map_values(|p: (String, LeafValue)| pair_view(p))
}

/// The leaf that `token` completes when it arrives in state `s`: the stack
/// that locates it, and its value. A scalar is located by the stack after the
/// token; an empty array by the stack before its `]`.
pub open spec fn leaf_spec(s: PathState, token: StackElement) -> Option<(Seq<PathElement>, LeafValue)> {
    if token is EndArray && !s.pending && s.stack.len() > 0 && s.stack.last() is EmptyArray {
        Some((s.stack, LeafValue::EmptyArray))
    } else if token.is_scalar() {
        match push_spec(s, token) {
            Ok(n) => Some((n.stack, token.leaf()->Some_0)),
            Err(_) => None,
        }
    } else {
        None
    }
}

/// The tracker over a token sequence, from stack `s`: the final stack and the
/// leaves in document order, or the first fault.
pub open spec fn trace(s: PathState, tokens: Seq<StackElement>) -> Result<(PathState, Seq<(Seq<PathElement>, LeafValue)>), PathFault>
    decreases tokens.len(),
{
    if tokens.len() == 0 {
        Ok((s, Seq::empty()))
    } else {
        match trace(s, tokens.drop_last()) {
            Err(f) => Err(f),
            Ok((m, leaves)) => match push_spec(m, tokens.last()) {
                Err(f) => Err(f),
                Ok(n) => Ok((n, match leaf_spec(m, tokens.last()) {
                    Some(l) => leaves.push(l),
                    None => leaves,
                })),
            },
        }
    }
}

/// One step of the driver: the next stack and the pair emitted, if any.
pub open spec fn advance_spec(s: PathState, token: StackElement) -> Result<(PathState, Option<(Seq<char>, LeafValue)>), IndexError> {
    match push_spec(s, token) {
        Err(f) => Err(IndexError::Structure(f)),
        Ok(n) => match leaf_spec(s, token) {
            None => Ok((n, None)),
            Some((p, v)) => {
                if token.number_ok() {
                    Ok((n, Some((path_text(p), v))))
                } else {
                    Err(IndexError::InvalidNumber(token->JsNumber_0))
                }
            },
        },
    }
}

/// The driver over a token sequence, from stack `s`: the final stack and the
/// pairs emitted, or the first error.
pub open spec fn run_spec(s: PathState, tokens: Seq<StackElement>) -> Result<(PathState, Seq<(Seq<char>, LeafValue)>), IndexError>
    decreases tokens.len(),
{
    if tokens.len() == 0 {
        Ok((s, Seq::empty()))
    } else {
        match run_spec(s, tokens.drop_last()) {
            Err(e) => Err(e),
            Ok((m, out)) => match advance_spec(m, tokens.last()) {
                Err(e) => Err(e),
                Ok((n, Some(p))) => Ok((n, out.push(p))),
                Ok((n, None)) => Ok((n, out)),
            },
        }
    }
}

/// The pairs of a whole document, which must leave no container open.
pub open spec fn document_spec(tokens: Seq<StackElement>) -> Result<Seq<(Seq<char>, LeafValue)>, IndexError> {
    match run_spec(at_rest(Seq::empty()), tokens) {
        Err(e) => Err(e),
        Ok((s, out)) => {
            if settled(s).len() == 0 {
                Ok(out)
            } else {
                Err(IndexError::Structure(PathFault::UnclosedContainer))
            }
        },
    }
}

/// Once the driver has failed, further tokens keep the same error.
pub proof fn lemma_run_error_persists(s: PathState, tokens: Seq<StackElement>, k: int)
    requires
        0 <= k <= tokens.len(),
        run_spec(s, tokens.take(k)) is Err,
    ensures
        run_spec(s, tokens) == run_spec(s, tokens.take(k)),
    decreases tokens.len() - k,
{
    if k < tokens.len() {
        assert(tokens.take(k + 1).drop_last() =~= tokens.take(k));
        lemma_run_error_persists(s, tokens, k + 1);
    } else {
        assert(tokens.take(k) =~= tokens);
    }
}

impl JsonPath {
    /// Feeds one token; returns the pair it completes, if any.
    pub fn advance(&mut self, token: &StackElement) -> (r: Result<Option<(String, LeafValue)>, IndexError>)
        ensures
            match advance_spec(old(self)@, *token) {
                Ok((n, p)) => r is Ok && final(self)@ == n && match r->Ok_0 {
                    Some(q) => p == Some(pair_view(q)),
                    None => p is None,
                },
                Err(e) => r == Err::<Option<(String, LeafValue)>, IndexError>(e),
            },
    {
        let closes_empty_array = match token {
            StackElement::EndArray => self.head_is_empty_array(),
            _ => false,
        };
        let before = if closes_empty_array {
            Some(self.as_json_path())
        } else {
            None
        };
        match self.push(token) {
            Err(f) => {
                return Err(IndexError::Structure(f));
            },
            Ok(()) => {},
        }
        match before {
            Some(path) => Ok(Some((path, LeafValue::EmptyArray))),
            None => {
                if token.is_value() {
                    match token.as_value() {
                        Some(v) => Ok(Some((self.as_json_path(), v))),
                        None => {
                            let literal = match token {
                                StackElement::JsNumber(n) => n.clone(),
                                _ => String::new(),
                            };
                            Err(IndexError::InvalidNumber(literal))
                        },
                    }
                } else {
                    Ok(None)
                }
            },
        }
    }
}

/// Flattens a whole document given as its token sequence.
pub fn flatten(tokens: &Vec<StackElement>) -> (r: Result<Vec<(String, LeafValue)>, IndexError>)
    ensures
        match document_spec(tokens@) {
            Ok(out) => r is Ok && pairs_view(r->Ok_0@) == out,
            Err(e) => r == Err::<Vec<(String, LeafValue)>, IndexError>(e),
        },
{
    let mut path = JsonPath::new();
    let mut out: Vec<(String, LeafValue)> = Vec::new();
    let n = tokens.len();
    let mut i: usize = 0;
    proof {
        assert(pairs_view(out@) =~= Seq::empty());
        assert(tokens@.take(0).len() == 0);
    }
    while i < n
        invariant
            n == tokens@.len(),
            i <= n,
            run_spec(at_rest(Seq::empty()), tokens@.take(i as int)) == Ok::<(PathState, Seq<(Seq<char>, LeafValue)>), IndexError>((path@, pairs_view(out@))),
        decreases n - i,
    {
        proof {
            assert(tokens@.take(i + 1).drop_last() =~= tokens@.take(i as int));
        }
        match path.advance(&tokens[i]) {
            Err(e) => {
                proof {
                    lemma_run_error_persists(at_rest(Seq::empty()), tokens@, (i + 1) as int);
                }
                return Err(e);
            },
            Ok(Some(p)) => {
                let ghost old_out = out@;
                out.push(p);
                proof {
                    assert(pairs_view(out@) =~= pairs_view(old_out).push(pair_view(p)));
                }
            },
            Ok(None) => {},
        }
        i += 1;
    }
    proof {
        assert(tokens@.take(n as int) =~= tokens@);
    }
    match path.end_document() {
        Ok(()) => Ok(out),
        Err(f) => Err(IndexError::Structure(f)),
    }
}

/// The pairs emitted on a prefix of the tokens are a prefix of those emitted
/// on the whole sequence.
pub proof fn lemma_run_prefix(s: PathState, tokens: Seq<StackElement>, k: int)
    requires
        0 <= k <= tokens.len(),
        run_spec(s, tokens) is Ok,
    ensures
        run_spec(s, tokens.take(k)) is Ok,
        run_spec(s, tokens.take(k))->Ok_0.1.is_prefix_of(run_spec(s, tokens)->Ok_0.1),
    decreases tokens.len() - k,
{
    if k == tokens.len() {
        assert(tokens.take(k) =~= tokens);
    } else {
        lemma_run_prefix(s, tokens, k + 1);
        assert(tokens.take(k + 1).drop_last() =~= tokens.take(k));
    }
}

/// A pull-based traversal of a document given as its token sequence.
pub struct JsonIndexIterator {
    path: JsonPath,
    tokens: Vec<StackElement>,
    position: usize,
    ended: bool,
    failed: bool,
    emitted: Ghost<Seq<(Seq<char>, LeafValue)>>,
}

impl JsonIndexIterator {
    /// The tokens of the document.
    pub closed spec fn tokens(&self) -> Seq<StackElement> {
        self.tokens@
    }

    /// The pairs returned so far.
    pub closed spec fn emitted(&self) -> Seq<(Seq<char>, LeafValue)> {
        self.emitted@
    }

    /// Whether the traversal has stopped on an error.
    pub closed spec fn failed(&self) -> bool {
        self.failed
    }

    /// Whether the traversal is over: the end of the document was reached,
    /// or an error stopped it.
    pub closed spec fn ended(&self) -> bool {
        self.ended
    }

    /// How many tokens have been consumed.
    pub closed spec fn position(&self) -> int {
        self.position as int
    }

    /// The tracker's state after the tokens consumed so far.
    pub closed spec fn state(&self) -> PathState {
        self.path@
    }

    /// The state is that of the driver over the tokens consumed so far: the
    /// pairs returned are those it emitted there, and they begin the pairs of
    /// the whole document whenever the document has any.
    pub open spec fn wf(&self) -> bool {
        &&& 0 <= self.position() <= self.tokens().len()
        &&& !self.ended() ==> run_spec(at_rest(Seq::empty()), self.tokens().take(self.position()))
            == Ok::<(PathState, Seq<(Seq<char>, LeafValue)>), IndexError>((
            self.state(),
            self.emitted(),
        ))
        &&& self.ended() && !self.failed() ==> document_spec(self.tokens()) == Ok::<
            Seq<(Seq<char>, LeafValue)>,
            IndexError,
        >(self.emitted())
        &&& self.ended() && !self.failed() ==> self.state() == at_rest(Seq::empty())
        &&& self.failed() ==> self.ended() && document_spec(self.tokens()) is Err
        &&& document_spec(self.tokens()) is Ok ==> self.emitted().is_prefix_of(
            document_spec(self.tokens())->Ok_0,
        )
    }

    /// A traversal at the start of the document.
    pub fn from(tokens: Vec<StackElement>) -> (r: JsonIndexIterator)
        ensures
            r.wf(),
            r.tokens() == tokens@,
            r.emitted() == Seq::<(Seq<char>, LeafValue)>::empty(),
            r.position() == 0,
            r.state() == at_rest(Seq::empty()),
            !r.ended(),
            !r.failed(),
    {
        let r = JsonIndexIterator {
            path: JsonPath::new(),
            tokens,
            position: 0,
            ended: false,
            failed: false,
            emitted: Ghost(Seq::empty()),
        };
        proof {
            assert(r.tokens@.take(0).len() == 0);
            assert(Seq::<(Seq<char>, LeafValue)>::empty().is_prefix_of(Seq::empty()));
            if document_spec(r.tokens@) is Ok {
                assert(Seq::<(Seq<char>, LeafValue)>::empty() =~= document_spec(r.tokens@)->Ok_0.take(0));
            }
        }
        r
    }

    /// The next pair of the document, in document order; `None` once the
    /// document has ended, or once the traversal has stopped on an error.
    pub fn next(&mut self) -> (r: Result<Option<(String, LeafValue)>, IndexError>)
        requires
            old(self).wf(),
        ensures
            final(self).wf(),
            final(self).tokens() == old(self).tokens(),
            document_spec(final(self).tokens()) is Ok ==> final(self).emitted().is_prefix_of(
                document_spec(final(self).tokens())->Ok_0,
            ),
            old(self).ended() ==> r == Ok::<Option<(String, LeafValue)>, IndexError>(None)
                && *final(self) == *old(self),
            match r {
                Ok(Some(p)) => {
                    &&& final(self).emitted() == old(self).emitted().push(pair_view(p))
                    &&& !final(self).failed()
                    &&& !final(self).ended()
                    &&& document_spec(old(self).tokens()) is Ok ==> document_spec(
                        old(self).tokens(),
                    )->Ok_0[old(self).emitted().len() as int] == pair_view(p)
                    // tokens are pulled only up to the one that completes the pair
                    &&& old(self).position() < final(self).position()
                    &&& forall|k: int|
                        old(self).position() <= k < final(self).position() ==> (#[trigger] run_spec(
                            at_rest(Seq::empty()),
                            old(self).tokens().take(k),
                        )) is Ok && run_spec(at_rest(Seq::empty()), old(self).tokens().take(k))->Ok_0.1
                            == old(self).emitted()
                },
                Ok(None) => final(self).emitted() == old(self).emitted() && final(self).failed()
                    == old(self).failed() && (old(self).failed() || document_spec(old(self).tokens())
                    == Ok::<Seq<(Seq<char>, LeafValue)>, IndexError>(old(self).emitted())),
                Err(e) => final(self).failed() && document_spec(old(self).tokens()) == Err::<
                    Seq<(Seq<char>, LeafValue)>,
                    IndexError,
                >(e),
            },
    {
        if self.ended {
            return Ok(None);
        }
        let n = self.tokens.len();
        while self.position < n
            invariant
                n == self.tokens@.len(),
                self.position <= n,
                !self.ended,
                !self.failed,
                self.emitted@ == old(self).emitted@,
                self.tokens@ == old(self).tokens@,
                run_spec(at_rest(Seq::empty()), self.tokens@.take(self.position as int)) == Ok::<
                    (PathState, Seq<(Seq<char>, LeafValue)>),
                    IndexError,
                >((self.path@, self.emitted@)),
                document_spec(self.tokens@) is Ok ==> self.emitted@.is_prefix_of(
                    document_spec(self.tokens@)->Ok_0,
                ),
                !old(self).ended,
                old(self).position <= self.position,
                forall|k: int|
                    old(self).position <= k <= self.position ==> (#[trigger] run_spec(
                        at_rest(Seq::empty()),
                        self.tokens@.take(k),
                    )) is Ok && run_spec(at_rest(Seq::empty()), self.tokens@.take(k))->Ok_0.1 == self.emitted@,
            decreases n - self.position,
        {
            let i = self.position;
            proof {
                assert(self.tokens@.take(i + 1).drop_last() =~= self.tokens@.take(i as int));
            }
            let step = self.path.advance(&self.tokens[i]);
            self.position = i + 1;
            match step {
                Err(e) => {
                    proof {
                        lemma_run_error_persists(at_rest(Seq::empty()), self.tokens@, (i + 1) as int);
                    }
                    self.ended = true;
                    self.failed = true;
                    return Err(e);
                },
                Ok(Some(p)) => {
                    let ghost before = self.emitted@;
                    self.emitted = Ghost(self.emitted@.push(pair_view(p)));
                    proof {
                        if document_spec(self.tokens@) is Ok {
                            lemma_run_prefix(at_rest(Seq::empty()), self.tokens@, (i + 1) as int);
                            let all = document_spec(self.tokens@)->Ok_0;
                            assert(self.emitted@[before.len() as int] == pair_view(p));
                            assert(all[before.len() as int] == self.emitted@[before.len() as int]);
                        }
                    }
                    return Ok(Some(p));
                },
                Ok(None) => {},
            }
        }
        proof {
            assert(self.tokens@.take(n as int) =~= self.tokens@);
        }
        self.ended = true;
        match self.path.end_document() {
            Ok(()) => {
                proof {
                    assert(self.path@.stack =~= Seq::<PathElement>::empty());
                }
                Ok(None)
            },
            Err(f) => {
                self.failed = true;
                Err(IndexError::Structure(f))
            },
        }
    }
}

/// Sources of tokens that a traversal can be started on.
pub trait JsonIndexable: Sized {
    spec fn token_view(&self) -> Seq<StackElement>;

    fn index_paths(self) -> (r: JsonIndexIterator)
        ensures
            r.wf(),
            r.tokens() == self.token_view(),
            r.emitted() == Seq::<(Seq<char>, LeafValue)>::empty(),
            r.position() == 0,
            r.state() == at_rest(Seq::empty()),
            !r.ended(),
            !r.failed(),
    ;
}

impl JsonIndexable for Vec<StackElement> {
    open spec fn token_view(&self) -> Seq<StackElement> {
        self@
    }

    fn index_paths(self) -> (r: JsonIndexIterator) {
        JsonIndexIterator::from(self)
    }
}

} // verus!
