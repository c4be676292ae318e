//! The path-tracking state machine: a stack of path components that follows
//! the nesting of a JSON document one token at a time.

use vstd::prelude::*;
use crate::token::StackElement;
use crate::render::{joined_text, path_text, ToJsonPath};

verus! {

/// One component of the path stack.
#[derive(Debug, Clone)]
pub enum PathElement {
    /// An object member name.
    Key(String),
    /// An array that has not received its first element yet.
    EmptyArray,
    /// The position of the array element currently being described.
    ArrayIndex(usize),
    /// An open object.
    Object,
}

/// Faults of a token stream that breaks the nesting the tracker relies on.
#[derive(Debug, Clone, Copy, PartialEq, Eq)]
pub enum PathFault {
    /// A key arrived while the previous key still waited for its value.
    ConsecutiveKeys,
    /// `}` without an open object at the current position.
    UnmatchedEndObject,
    /// `]` without an open array at the current position.
    UnmatchedEndArray,
    /// An array received more elements than a `usize` index can number.
    IndexOverflow,
    /// The document ended while a container was still open.
    UnclosedContainer,
}

/// The state of the tracker: the path stack, and whether a scalar has just
/// been resolved whose key (if any) is still to be retired. A scalar has no
/// closing token and leaves no component of its own on the stack; while its
/// retirement is pending the stack still locates it.
pub struct PathState {
    pub stack: Seq<PathElement>,
    pub pending: bool,
}

/// The state with the given stack and nothing pending.
pub open spec fn at_rest(stack: Seq<PathElement>) -> PathState {
    PathState { stack, pending: false }
}

pub open spec fn element_is_array(e: PathElement) -> bool {
    e is EmptyArray || e is ArrayIndex
}

pub open spec fn element_is_container(e: PathElement) -> bool {
    element_is_array(e) || e is Object
}

/// The stack with every component above the innermost open container removed.
pub open spec fn backtrack_spec(s: Seq<PathElement>) -> Seq<PathElement>
    decreases s.len(),
{
    if s.len() == 0 || element_is_container(s.last()) {
        s
    } else {
        backtrack_spec(s.drop_last())
    }
}

/// The stack once a pending retirement has been carried out.
pub open spec fn settled(st: PathState) -> Seq<PathElement> {
    if st.pending {
        backtrack_spec(st.stack)
    } else {
        st.stack
    }
}

/// The stack once a new value begins: inside an array, the index moves on to
/// the next sibling.
pub open spec fn begin_value(s: Seq<PathElement>) -> Result<Seq<PathElement>, PathFault> {
    if s.len() > 0 && s.last() is EmptyArray {
        Ok(s.update(s.len() - 1, PathElement::ArrayIndex(0)))
    } else if s.len() > 0 && s.last() is ArrayIndex {
        let i = s.last()->ArrayIndex_0;
        if i < usize::MAX {
            Ok(s.update(s.len() - 1, PathElement::ArrayIndex((i + 1) as usize)))
        } else {
            Err(PathFault::IndexOverflow)
        }
    } else {
        Ok(s)
    }
}

/// A new container begins, and `e` is pushed for it.
pub open spec fn open_value(s: Seq<PathElement>, e: PathElement) -> Result<Seq<PathElement>, PathFault> {
    match begin_value(s) {
        Ok(b) => Ok(b.push(e)),
        Err(f) => Err(f),
    }
}

/// The state after one token.
pub open spec fn push_spec(st: PathState, token: StackElement) -> Result<PathState, PathFault> {
    let c = settled(st);
    match token {
        StackElement::StartObject => match open_value(c, PathElement::Object) {
            Ok(n) => Ok(at_rest(n)),
            Err(f) => Err(f),
        },
        StackElement::StartArray => match open_value(c, PathElement::EmptyArray) {
            Ok(n) => Ok(at_rest(n)),
            Err(f) => Err(f),
        },
        StackElement::EndObject => {
            if c.len() > 0 && c.last() is Object {
                Ok(at_rest(backtrack_spec(c.drop_last())))
            } else {
                Err(PathFault::UnmatchedEndObject)
            }
        },
        StackElement::EndArray => {
            if c.len() > 0 && element_is_array(c.last()) {
                Ok(at_rest(backtrack_spec(c.drop_last())))
            } else {
                Err(PathFault::UnmatchedEndArray)
            }
        },
        StackElement::JsKey(k) => {
            if c.len() > 0 && c.last() is Key {
                Err(PathFault::ConsecutiveKeys)
            } else {
                Ok(at_rest(c.push(PathElement::Key(k))))
            }
        },
        _ => match begin_value(c) {
            Ok(b) => Ok(PathState { stack: b, pending: true }),
            Err(f) => Err(f),
        },
    }
}

impl PathElement {
    pub fn is_array(&self) -> (r: bool)
        ensures
            r == element_is_array(*self),
    {
        match self {
            PathElement::EmptyArray => true,
            PathElement::ArrayIndex(_) => true,
            _ => false,
        }
    }

    pub fn is_object(&self) -> (r: bool)
        ensures
            r == (*self is Object),
    {
        match self {
            PathElement::Object => true,
            _ => false,
        }
    }

    pub fn is_container(&self) -> (r: bool)
        ensures
            r == element_is_container(*self),
    {
        self.is_array() || self.is_object()
    }
}

/// The path tracker of one document traversal.
#[derive(Debug, Clone)]
pub struct JsonPath {
    elements: Vec<PathElement>,
    leaf_pending: bool,
}

impl View for JsonPath {
    type V = PathState;

    closed spec fn view(&self) -> PathState {
        PathState { stack: self.elements@, pending: self.leaf_pending }
    }
}

impl JsonPath {
    /// An empty stack: the position of the document root.
    pub fn new() -> (r: JsonPath)
        ensures
            r@ == at_rest(Seq::empty()),
    {
        JsonPath { elements: Vec::new(), leaf_pending: false }
    }

    /// Overwrites the top of the stack; an empty stack stays empty.
    fn replace_head(&mut self, element: PathElement)
        ensures
            final(self)@.pending == old(self)@.pending,
            old(self)@.stack.len() > 0 ==> final(self)@.stack == old(self)@.stack.update(
                old(self)@.stack.len() - 1,
                element,
            ),
            old(self)@.stack.len() == 0 ==> final(self)@.stack == old(self)@.stack,
    {
        let n = self.elements.len();
        if n > 0 {
            self.elements.set(n - 1, element);
        }
    }

    /// Moves the index of the innermost array to the next sibling.
    fn array_index_inc(&mut self) -> (r: Result<(), PathFault>)
        ensures
            final(self)@.pending == old(self)@.pending,
            match begin_value(old(self)@.stack) {
                Ok(b) => r is Ok && final(self)@.stack == b,
                Err(f) => r == Err::<(), PathFault>(f) && final(self)@ == old(self)@,
            },
    {
        let n = self.elements.len();
        if n == 0 {
            return Ok(());
        }
        let next = match &self.elements[n - 1] {
            PathElement::EmptyArray => 0,
            PathElement::ArrayIndex(i) => {
                if *i == usize::MAX {
                    return Err(PathFault::IndexOverflow);
                }
                *i + 1
            },
            _ => {
                return Ok(());
            },
        };
        self.replace_head(PathElement::ArrayIndex(next));
        Ok(())
    }

    /// Removes every component above the innermost open container.
    fn backtrack(&mut self)
        ensures
            final(self)@.stack == backtrack_spec(old(self)@.stack),
            final(self)@.pending == old(self)@.pending,
    {
        while self.elements.len() > 0 && !self.elements[self.elements.len() - 1].is_container()
            invariant
                backtrack_spec(self@.stack) == backtrack_spec(old(self)@.stack),
                self@.pending == old(self)@.pending,
            decreases self@.stack.len(),
        {
            self.elements.pop();
        }
    }

    /// Carries out a pending retirement: the key of the scalar just resolved
    /// leaves the stack.
    fn settle(&mut self)
        ensures
            final(self)@ == at_rest(settled(old(self)@)),
    {
        if self.leaf_pending {
            self.backtrack();
            self.leaf_pending = false;
        }
    }

    fn head_is_array(&self) -> (r: bool)
        ensures
            r == (self@.stack.len() > 0 && element_is_array(self@.stack.last())),
    {
        let n = self.elements.len();
        n > 0 && self.elements[n - 1].is_array()
    }

    fn head_is_object(&self) -> (r: bool)
        ensures
            r == (self@.stack.len() > 0 && self@.stack.last() is Object),
    {
        let n = self.elements.len();
        n > 0 && self.elements[n - 1].is_object()
    }

    fn head_is_key(&self) -> (r: bool)
        ensures
            r == (self@.stack.len() > 0 && self@.stack.last() is Key),
    {
        let n = self.elements.len();
        n > 0 && (match &self.elements[n - 1] {
            PathElement::Key(_) => true,
            _ => false,
        })
    }

    /// Whether an array has just opened and not received an element yet.
    pub fn head_is_empty_array(&self) -> (r: bool)
        ensures
            r == (!self@.pending && self@.stack.len() > 0 && self@.stack.last() is EmptyArray),
    {
        let n = self.elements.len();
        !self.leaf_pending && n > 0 && (match &self.elements[n - 1] {
            PathElement::EmptyArray => true,
            _ => false,
        })
    }

    /// Begins a new container, numbering it if it is an array element, and
    /// pushes `element` for it.
    fn push_value(&mut self, element: PathElement) -> (r: Result<(), PathFault>)
        requires
            !old(self)@.pending,
        ensures
            match open_value(old(self)@.stack, element) {
                Ok(s) => r is Ok && final(self)@ == at_rest(s),
                Err(f) => r == Err::<(), PathFault>(f) && final(self)@ == old(self)@,
            },
    {
        if self.head_is_array() {
            self.array_index_inc()?;
        }
        self.elements.push(element);
        Ok(())
    }

    /// Resolves a scalar: numbers it if it is an array element, and marks its
    /// key for retirement. The scalar itself takes no place on the stack.
    fn push_scalar(&mut self) -> (r: Result<(), PathFault>)
        requires
            !old(self)@.pending,
        ensures
            match begin_value(old(self)@.stack) {
                Ok(b) => r is Ok && final(self)@ == PathState { stack: b, pending: true },
                Err(f) => r == Err::<(), PathFault>(f) && final(self)@ == old(self)@,
            },
    {
        if self.head_is_array() {
            self.array_index_inc()?;
        }
        self.leaf_pending = true;
        Ok(())
    }

    fn push_key(&mut self, key: &String) -> (r: Result<(), PathFault>)
        requires
            !old(self)@.pending,
        ensures
            if old(self)@.stack.len() > 0 && old(self)@.stack.last() is Key {
                r == Err::<(), PathFault>(PathFault::ConsecutiveKeys) && final(self)@ == old(self)@
            } else {
                r is Ok && final(self)@ == at_rest(old(self)@.stack.push(PathElement::Key(*key)))
            },
    {
        if self.head_is_key() {
            return Err(PathFault::ConsecutiveKeys);
        }
        self.elements.push(PathElement::Key(key.clone()));
        Ok(())
    }

    /// Closes the innermost container, which must be an array, and retires its key.
    fn end_array(&mut self) -> (r: Result<(), PathFault>)
        requires
            !old(self)@.pending,
        ensures
            if old(self)@.stack.len() > 0 && element_is_array(old(self)@.stack.last()) {
                r is Ok && final(self)@ == at_rest(backtrack_spec(old(self)@.stack.drop_last()))
            } else {
                r == Err::<(), PathFault>(PathFault::UnmatchedEndArray) && final(self)@ == old(self)@
            },
    {
        if !self.head_is_array() {
            return Err(PathFault::UnmatchedEndArray);
        }
        self.elements.pop();
        self.backtrack();
        Ok(())
    }

    /// Closes the innermost container, which must be an object, and retires its key.
    fn end_object(&mut self) -> (r: Result<(), PathFault>)
        requires
            !old(self)@.pending,
        ensures
            if old(self)@.stack.len() > 0 && old(self)@.stack.last() is Object {
                r is Ok && final(self)@ == at_rest(backtrack_spec(old(self)@.stack.drop_last()))
            } else {
                r == Err::<(), PathFault>(PathFault::UnmatchedEndObject) && final(self)@ == old(self)@
            },
    {
        if !self.head_is_object() {
            return Err(PathFault::UnmatchedEndObject);
        }
        self.elements.pop();
        self.backtrack();
        Ok(())
    }

    /// Updates the state for one token.
    pub fn push(&mut self, token: &StackElement) -> (r: Result<(), PathFault>)
        ensures
            match push_spec(old(self)@, *token) {
                Ok(s) => r is Ok && final(self)@ == s,
                Err(f) => r == Err::<(), PathFault>(f),
            },
            r is Err ==> final(self)@ == at_rest(settled(old(self)@)),
    {
        self.settle();
        match token {
            StackElement::StartObject => self.push_value(PathElement::Object),
            StackElement::EndObject => self.end_object(),
            StackElement::StartArray => self.push_value(PathElement::EmptyArray),
            StackElement::EndArray => self.end_array(),
            StackElement::JsKey(k) => self.push_key(k),
            _ => self.push_scalar(),
        }
    }
}

impl ToJsonPath for JsonPath {
    open spec fn json_path_text(&self) -> Seq<char> {
        path_text(self@.stack)
    }

    /// The materialized path of the current position.
    fn as_json_path(&self) -> (r: String) {
        let mut joined = String::new();
        let n = self.elements.len();
        let mut i: usize = 0;
        while i < n
            invariant
                n == self@.stack.len(),
                i <= n,
                joined@ == joined_text(self@.stack.take(i as int)),
            decreases n - i,
        {
            let seg = self.elements[i].as_json_path();
            joined.append(seg.as_str());
            proof {
                assert(self@.stack.take(i + 1).drop_last() =~= self@.stack.take(i as int));
            }
            i += 1;
        }
        proof {
            assert(self@.stack.take(n as int) =~= self@.stack);
        }
        let len = joined.as_str().unicode_len();
        if len > 0 && joined.as_str().get_char(0) == '.' {
            joined
        } else {
            proof {
                reveal_strlit(".");
                assert("."@ =~= seq!['.']);
            }
            let mut r = String::from_str(".");
            r.append(joined.as_str());
            r
        }
    }
}

impl JsonPath {
    /// Whether no component is on the stack.
    pub fn is_empty(&self) -> (r: bool)
        ensures
            r == (self@.stack.len() == 0),
    {
        self.elements.len() == 0
    }

    /// Ends the document: carries out a pending retirement, and fails where a container
    /// is still open.
    pub fn end_document(&mut self) -> (r: Result<(), PathFault>)
        ensures
            final(self)@ == at_rest(settled(old(self)@)),
            settled(old(self)@).len() == 0 ==> r is Ok,
            settled(old(self)@).len() != 0 ==> r == Err::<(), PathFault>(PathFault::UnclosedContainer),
    {
        self.settle();
        if self.elements.len() == 0 {
            Ok(())
        } else {
            Err(PathFault::UnclosedContainer)
        }
    }
}

} // verus!
