//! JSON documents as trees, their token sequences, and their flattening
//! computed directly on the tree; the streaming tracker agrees with it.

use vstd::prelude::*;
use crate::index::{advance_spec, document_spec, leaf_spec, run_spec, trace, JsonIndexIterator};
use crate::render::path_text;
use crate::token::decodes_as_number;
use crate::json_path::{at_rest, backtrack_spec, begin_value, push_spec, settled, PathElement, PathState};
use crate::token::{LeafValue, StackElement};

verus! {

/// A JSON document as a tree.
pub enum JsonTree {
    Null,
    Bool(bool),
    /// A number, as its literal.
    Number(String),
    Str(String),
    Array(Seq<JsonTree>),
    /// Object members in document order.
    Object(Seq<(String, JsonTree)>),
}

/// The tokens a well-formed token source delivers for a document.
pub open spec fn tokens_of(t: JsonTree) -> Seq<StackElement>
    decreases t, 0int,
{
    match t {
        JsonTree::Null => seq![StackElement::JsNull],
        JsonTree::Bool(b) => seq![StackElement::JsBoolean(b)],
        JsonTree::Number(n) => seq![StackElement::JsNumber(n)],
        JsonTree::Str(s) => seq![StackElement::JsString(s)],
        JsonTree::Array(items) => seq![StackElement::StartArray] + items_tokens(items, items.len() as int)
            + seq![StackElement::EndArray],
        JsonTree::Object(members) => seq![StackElement::StartObject] + members_tokens(
            members,
            members.len() as int,
        ) + seq![StackElement::EndObject],
    }
}

/// The tokens of the first `n` array elements.
pub open spec fn items_tokens(items: Seq<JsonTree>, n: int) -> Seq<StackElement>
    decreases items, n,
{
    if n <= 0 || n > items.len() {
        Seq::empty()
    } else {
        items_tokens(items, n - 1) + tokens_of(items[n - 1])
    }
}

/// The tokens of the first `n` object members, each a key and its value.
pub open spec fn members_tokens(members: Seq<(String, JsonTree)>, n: int) -> Seq<StackElement>
    decreases members, n,
{
    if n <= 0 || n > members.len() {
        Seq::empty()
    } else {
        members_tokens(members, n - 1) + seq![StackElement::JsKey(members[n - 1].0)] + tokens_of(
            members[n - 1].1,
        )
    }
}

/// The leaves of a document located at position stack `p`, in document
/// order: each scalar, and each empty array, with the stack that locates it.
pub open spec fn flatten_tree(t: JsonTree, p: Seq<PathElement>) -> Seq<(Seq<PathElement>, LeafValue)>
    decreases t, 0int,
{
    match t {
        JsonTree::Null => seq![(p, LeafValue::Null)],
        JsonTree::Bool(b) => seq![(p, LeafValue::Bool(b))],
        JsonTree::Number(n) => seq![(p, LeafValue::Number(n))],
        JsonTree::Str(s) => seq![(p, LeafValue::Str(s))],
        JsonTree::Array(items) => {
            if items.len() == 0 {
                seq![(p.push(PathElement::EmptyArray), LeafValue::EmptyArray)]
            } else {
                items_leaves(items, p, items.len() as int)
            }
        },
        JsonTree::Object(members) => members_leaves(members, p, members.len() as int),
    }
}

/// The leaves of the first `n` elements of an array located at `p`.
pub open spec fn items_leaves(items: Seq<JsonTree>, p: Seq<PathElement>, n: int) -> Seq<(Seq<PathElement>, LeafValue)>
    decreases items, n,
{
    if n <= 0 || n > items.len() {
        Seq::empty()
    } else {
        items_leaves(items, p, n - 1) + flatten_tree(
            items[n - 1],
            p.push(PathElement::ArrayIndex((n - 1) as usize)),
        )
    }
}

/// The leaves of the first `n` members of an object located at `p`.
pub open spec fn members_leaves(members: Seq<(String, JsonTree)>, p: Seq<PathElement>, n: int) -> Seq<(Seq<PathElement>, LeafValue)>
    decreases members, n,
{
    if n <= 0 || n > members.len() {
        Seq::empty()
    } else {
        members_leaves(members, p, n - 1) + flatten_tree(
            members[n - 1].1,
            p.push(PathElement::Object).push(PathElement::Key(members[n - 1].0)),
        )
    }
}

/// Every array of the document has at most `usize::MAX` elements, so that
/// each element has a `usize` index.
pub open spec fn fits(t: JsonTree) -> bool
    decreases t, 0int,
{
    match t {
        JsonTree::Array(items) => items.len() <= usize::MAX && items_fit(items, items.len() as int),
        JsonTree::Object(members) => members_fit(members, members.len() as int),
        _ => true,
    }
}

pub open spec fn items_fit(items: Seq<JsonTree>, n: int) -> bool
    decreases items, n,
{
    if n <= 0 || n > items.len() {
        true
    } else {
        items_fit(items, n - 1) && fits(items[n - 1])
    }
}

pub open spec fn members_fit(members: Seq<(String, JsonTree)>, n: int) -> bool
    decreases members, n,
{
    if n <= 0 || n > members.len() {
        true
    } else {
        members_fit(members, n - 1) && fits(members[n - 1].1)
    }
}

/// The tracker over two token sequences in a row is the tracker over their
/// concatenation.
pub proof fn lemma_trace_concat(s: PathState, a: Seq<StackElement>, b: Seq<StackElement>)
    requires
        trace(s, a) is Ok,
        trace(trace(s, a)->Ok_0.0, b) is Ok,
    ensures
        trace(s, a + b) == Ok::<(PathState, Seq<(Seq<PathElement>, LeafValue)>), crate::json_path::PathFault>((
            trace(trace(s, a)->Ok_0.0, b)->Ok_0.0,
            trace(s, a)->Ok_0.1 + trace(trace(s, a)->Ok_0.0, b)->Ok_0.1,
        )),
    decreases b.len(),
{
    let m = trace(s, a)->Ok_0.0;
    if b.len() == 0 {
        assert(a + b =~= a);
        assert(trace(s, a)->Ok_0.1 + Seq::empty() =~= trace(s, a)->Ok_0.1);
    } else {
        assert((a + b).drop_last() =~= a + b.drop_last());
        lemma_trace_concat(s, a, b.drop_last());
        let lb = trace(m, b.drop_last())->Ok_0.1;
        let la = trace(s, a)->Ok_0.1;
        assert((a + b).last() == b.last());
        match crate::index::leaf_spec(trace(m, b.drop_last())->Ok_0.0, b.last()) {
            Some(l) => {
                assert(la + lb.push(l) =~= (la + lb).push(l));
            },
            None => {},
        }
    }
}

/// A single token.
pub proof fn lemma_trace_one(s: PathState, token: StackElement)
    ensures
        trace(s, seq![token]) == match push_spec(s, token) {
            Err(f) => Err(f),
            Ok(n) => Ok((n, match crate::index::leaf_spec(s, token) {
                Some(l) => seq![l],
                None => Seq::empty(),
            })),
        },
{
    let e = Seq::<StackElement>::empty();
    assert(seq![token].drop_last() =~= e);
    assert(seq![token].last() == token);
    assert(trace(s, e) is Ok && trace(s, e)->Ok_0 == (s, Seq::<(Seq<PathElement>, LeafValue)>::empty()));
    match crate::index::leaf_spec(s, token) {
        Some(l) => {
            assert(Seq::<(Seq<PathElement>, LeafValue)>::empty().push(l) =~= seq![l]);
        },
        None => {},
    }
}

/// After backtracking, the top of the stack is an open container, or the
/// stack is empty.
pub proof fn lemma_backtrack_shape(x: Seq<PathElement>)
    ensures
        backtrack_spec(x).len() == 0 || crate::json_path::element_is_container(backtrack_spec(x).last()),
        backtrack_spec(backtrack_spec(x)) == backtrack_spec(x),
    decreases x.len(),
{
    if x.len() > 0 && !crate::json_path::element_is_container(x.last()) {
        lemma_backtrack_shape(x.drop_last());
    }
}

/// The state after the tokens of one value, from a value that begins at `b`:
/// a scalar leaves `b` with its retirement pending; a container leaves `b`
/// with the key (if any) retired.
pub open spec fn after_value(t: JsonTree, b: Seq<PathElement>) -> PathState {
    if t is Array || t is Object {
        at_rest(backtrack_spec(b))
    } else {
        PathState { stack: b, pending: true }
    }
}

/// The tokens of one value, arriving in state `s`: the tracker emits the
/// value's leaves, located below the position the value begins at, and then
/// retires that position's key.
pub proof fn lemma_trace_value(t: JsonTree, s: PathState)
    requires
        fits(t),
        begin_value(settled(s)) is Ok,
    ensures
        trace(s, tokens_of(t)) is Ok,
        trace(s, tokens_of(t))->Ok_0.1 == flatten_tree(t, begin_value(settled(s))->Ok_0),
        trace(s, tokens_of(t))->Ok_0.0 == after_value(t, begin_value(settled(s))->Ok_0),
        settled(trace(s, tokens_of(t))->Ok_0.0) == backtrack_spec(begin_value(settled(s))->Ok_0),
    decreases t, 1int,
{
    let b = begin_value(settled(s))->Ok_0;
    lemma_backtrack_shape(b);
    match t {
        JsonTree::Array(items) => {
            let n = items.len() as int;
            let start = seq![StackElement::StartArray];
            let mid = items_tokens(items, n);
            let end = seq![StackElement::EndArray];
            let a0 = at_rest(b.push(PathElement::EmptyArray));
            lemma_trace_one(s, StackElement::StartArray);
            lemma_trace_items(items, b, n);
            lemma_trace_concat(s, start, mid);
            let f = trace(a0, mid)->Ok_0.0;
            let lm = trace(a0, mid)->Ok_0.1;
            assert(settled(f).len() > 0 && crate::json_path::element_is_array(settled(f).last()));
            assert(settled(f).drop_last() =~= b);
            lemma_trace_one(f, StackElement::EndArray);
            lemma_trace_concat(s, start + mid, end);
            assert(tokens_of(t) == start + mid + end);
            if n == 0 {
                assert(Seq::<(Seq<PathElement>, LeafValue)>::empty() + lm + seq![(b.push(PathElement::EmptyArray), LeafValue::EmptyArray)] =~= flatten_tree(t, b));
            } else {
                assert(!(!f.pending && f.stack.len() > 0 && f.stack.last() is EmptyArray));
                assert(Seq::<(Seq<PathElement>, LeafValue)>::empty() + lm + Seq::empty() =~= flatten_tree(t, b));
            }
        },
        JsonTree::Object(members) => {
            let n = members.len() as int;
            let start = seq![StackElement::StartObject];
            let mid = members_tokens(members, n);
            let end = seq![StackElement::EndObject];
            let a0 = at_rest(b.push(PathElement::Object));
            lemma_trace_one(s, StackElement::StartObject);
            lemma_trace_members(members, b, n);
            lemma_trace_concat(s, start, mid);
            let f = trace(a0, mid)->Ok_0.0;
            let lm = trace(a0, mid)->Ok_0.1;
            assert(settled(f).drop_last() =~= b);
            lemma_trace_one(f, StackElement::EndObject);
            lemma_trace_concat(s, start + mid, end);
            assert(tokens_of(t) == start + mid + end);
            assert(Seq::<(Seq<PathElement>, LeafValue)>::empty() + lm + Seq::empty() =~= flatten_tree(t, b));
        },
        _ => {
            let token = tokens_of(t)[0];
            assert(tokens_of(t) =~= seq![token]);
            lemma_trace_one(s, token);
        },
    }
}

/// The first `n` elements of an array whose `[` arrived at position `b`.
pub proof fn lemma_trace_items(items: Seq<JsonTree>, b: Seq<PathElement>, n: int)
    requires
        0 <= n <= items.len(),
        items.len() <= usize::MAX,
        items_fit(items, n),
    ensures
        trace(at_rest(b.push(PathElement::EmptyArray)), items_tokens(items, n)) is Ok,
        trace(at_rest(b.push(PathElement::EmptyArray)), items_tokens(items, n))->Ok_0.1 == items_leaves(items, b, n),
        settled(trace(at_rest(b.push(PathElement::EmptyArray)), items_tokens(items, n))->Ok_0.0) == if n == 0 {
            b.push(PathElement::EmptyArray)
        } else {
            b.push(PathElement::ArrayIndex((n - 1) as usize))
        },
        n == 0 ==> trace(at_rest(b.push(PathElement::EmptyArray)), items_tokens(items, n))->Ok_0.0 == at_rest(
            b.push(PathElement::EmptyArray),
        ),
    decreases items, n,
{
    let a0 = at_rest(b.push(PathElement::EmptyArray));
    if n == 0 {
        assert(items_tokens(items, 0) =~= Seq::<StackElement>::empty());
    } else {
        lemma_trace_items(items, b, n - 1);
        let before = items_tokens(items, n - 1);
        let f = trace(a0, before)->Ok_0.0;
        let next = b.push(PathElement::ArrayIndex((n - 1) as usize));
        assert(settled(f).drop_last() =~= b);
        assert(begin_value(settled(f)) == Ok::<Seq<PathElement>, crate::json_path::PathFault>(next)) by {
            assert(settled(f).update(settled(f).len() - 1, PathElement::ArrayIndex((n - 1) as usize)) =~= next);
        };
        lemma_trace_value(items[n - 1], f);
        lemma_trace_concat(a0, before, tokens_of(items[n - 1]));
        assert(next.drop_last() =~= b);
    }
}

/// The first `n` members of an object whose `{` arrived at position `b`.
pub proof fn lemma_trace_members(members: Seq<(String, JsonTree)>, b: Seq<PathElement>, n: int)
    requires
        0 <= n <= members.len(),
        members_fit(members, n),
    ensures
        trace(at_rest(b.push(PathElement::Object)), members_tokens(members, n)) is Ok,
        trace(at_rest(b.push(PathElement::Object)), members_tokens(members, n))->Ok_0.1 == members_leaves(members, b, n),
        settled(trace(at_rest(b.push(PathElement::Object)), members_tokens(members, n))->Ok_0.0) == b.push(PathElement::Object),
    decreases members, n,
{
    let o = b.push(PathElement::Object);
    let a0 = at_rest(o);
    if n == 0 {
        assert(members_tokens(members, 0) =~= Seq::<StackElement>::empty());
    } else {
        lemma_trace_members(members, b, n - 1);
        let before = members_tokens(members, n - 1);
        let key = seq![StackElement::JsKey(members[n - 1].0)];
        let f = trace(a0, before)->Ok_0.0;
        let g = o.push(PathElement::Key(members[n - 1].0));
        lemma_trace_one(f, StackElement::JsKey(members[n - 1].0));
        lemma_trace_concat(a0, before, key);
        assert(trace(a0, before)->Ok_0.1 + Seq::empty() =~= trace(a0, before)->Ok_0.1);
        lemma_trace_value(members[n - 1].1, at_rest(g));
        lemma_trace_concat(a0, before + key, tokens_of(members[n - 1].1));
        assert(g.drop_last() =~= o);
        assert(backtrack_spec(o) == o);
        assert(backtrack_spec(g) == backtrack_spec(o));
    }
}

/// The scalars of a document.
pub open spec fn scalar_count(t: JsonTree) -> nat
    decreases t, 0int,
{
    match t {
        JsonTree::Array(items) => items_scalar_count(items, items.len() as int),
        JsonTree::Object(members) => members_scalar_count(members, members.len() as int),
        _ => 1,
    }
}

pub open spec fn items_scalar_count(items: Seq<JsonTree>, n: int) -> nat
    decreases items, n,
{
    if n <= 0 || n > items.len() {
        0
    } else {
        items_scalar_count(items, n - 1) + scalar_count(items[n - 1])
    }
}

pub open spec fn members_scalar_count(members: Seq<(String, JsonTree)>, n: int) -> nat
    decreases members, n,
{
    if n <= 0 || n > members.len() {
        0
    } else {
        members_scalar_count(members, n - 1) + scalar_count(members[n - 1].1)
    }
}

/// The empty arrays of a document.
pub open spec fn empty_array_count(t: JsonTree) -> nat
    decreases t, 0int,
{
    match t {
        JsonTree::Array(items) => if items.len() == 0 {
            1
        } else {
            items_empty_array_count(items, items.len() as int)
        },
        JsonTree::Object(members) => members_empty_array_count(members, members.len() as int),
        _ => 0,
    }
}

pub open spec fn items_empty_array_count(items: Seq<JsonTree>, n: int) -> nat
    decreases items, n,
{
    if n <= 0 || n > items.len() {
        0
    } else {
        items_empty_array_count(items, n - 1) + empty_array_count(items[n - 1])
    }
}

pub open spec fn members_empty_array_count(members: Seq<(String, JsonTree)>, n: int) -> nat
    decreases members, n,
{
    if n <= 0 || n > members.len() {
        0
    } else {
        members_empty_array_count(members, n - 1) + empty_array_count(members[n - 1].1)
    }
}

/// The flattening has one leaf per scalar and one per empty array.
pub proof fn lemma_flatten_len(t: JsonTree, p: Seq<PathElement>)
    ensures
        flatten_tree(t, p).len() == scalar_count(t) + empty_array_count(t),
    decreases t, 1int,
{
    match t {
        JsonTree::Array(items) => {
            if items.len() > 0 {
                lemma_items_len(items, p, items.len() as int);
            }
        },
        JsonTree::Object(members) => {
            lemma_members_len(members, p, members.len() as int);
        },
        _ => {},
    }
}

proof fn lemma_items_len(items: Seq<JsonTree>, p: Seq<PathElement>, n: int)
    requires
        0 <= n <= items.len(),
    ensures
        items_leaves(items, p, n).len() == items_scalar_count(items, n) + items_empty_array_count(items, n),
    decreases items, n,
{
    if n > 0 {
        lemma_items_len(items, p, n - 1);
        lemma_flatten_len(items[n - 1], p.push(PathElement::ArrayIndex((n - 1) as usize)));
    }
}

proof fn lemma_members_len(members: Seq<(String, JsonTree)>, p: Seq<PathElement>, n: int)
    requires
        0 <= n <= members.len(),
    ensures
        members_leaves(members, p, n).len() == members_scalar_count(members, n)
            + members_empty_array_count(members, n),
    decreases members, n,
{
    if n > 0 {
        lemma_members_len(members, p, n - 1);
        lemma_flatten_len(
            members[n - 1].1,
            p.push(PathElement::Object).push(PathElement::Key(members[n - 1].0)),
        );
    }
}

/// Every number among the leaves decodes.
pub open spec fn numbers_decode(leaves: Seq<(Seq<PathElement>, LeafValue)>) -> bool {
    forall|i: int|
        0 <= i < leaves.len() && (#[trigger] leaves[i]).1 is Number ==> decodes_as_number(
            leaves[i].1->Number_0@,
        )
}

/// The leaves with their paths as text.
pub open spec fn render_leaves(leaves: Seq<(Seq<PathElement>, LeafValue)>) -> Seq<(Seq<char>, LeafValue)> {
    leaves.map_values(|l: (Seq<PathElement>, LeafValue)| (path_text(l.0), l.1))
}

/// Where the tracker succeeds and every number decodes, the driver emits the
/// tracker's leaves with their paths as text.
pub proof fn lemma_run_matches_trace(s: PathState, tokens: Seq<StackElement>)
    requires
        trace(s, tokens) is Ok,
        numbers_decode(trace(s, tokens)->Ok_0.1),
    ensures
        run_spec(s, tokens) is Ok,
        run_spec(s, tokens)->Ok_0.0 == trace(s, tokens)->Ok_0.0,
        run_spec(s, tokens)->Ok_0.1 == render_leaves(trace(s, tokens)->Ok_0.1),
    decreases tokens.len(),
{
    if tokens.len() == 0 {
        assert(render_leaves(Seq::empty()) =~= Seq::empty());
    } else {
        let prev = tokens.drop_last();
        let m = trace(s, prev)->Ok_0.0;
        let lp = trace(s, prev)->Ok_0.1;
        let token = tokens.last();
        match leaf_spec(m, token) {
            Some(l) => {
                assert(trace(s, tokens)->Ok_0.1 == lp.push(l));
                assert forall|i: int| 0 <= i < lp.len() && (#[trigger] lp[i]).1 is Number implies decodes_as_number(
                    lp[i].1->Number_0@,
                ) by {
                    assert(lp.push(l)[i] == lp[i]);
                };
                lemma_run_matches_trace(s, prev);
                assert(lp.push(l)[lp.len() as int] == l);
                assert(render_leaves(lp.push(l)) =~= render_leaves(lp).push((path_text(l.0), l.1)));
            },
            None => {
                lemma_run_matches_trace(s, prev);
            },
        }
    }
}

/// Balanced stack: on the tokens of any document, the tracker never faults,
/// and once the document ends no component is left on the stack.
pub proof fn lemma_balanced_stack(t: JsonTree)
    requires
        fits(t),
    ensures
        trace(at_rest(Seq::empty()), tokens_of(t)) is Ok,
        trace(at_rest(Seq::empty()), tokens_of(t))->Ok_0.0.stack.len() == 0,
{
    lemma_trace_value(t, at_rest(Seq::empty()));
}

/// The streaming driver agrees with the flattening computed on the tree: on
/// the tokens of a document whose numbers decode, it emits exactly the tree's
/// leaves in document order, one per scalar and one per empty array, each
/// with its materialized path.
pub proof fn lemma_flatten_agrees(t: JsonTree)
    requires
        fits(t),
        numbers_decode(flatten_tree(t, Seq::empty())),
    ensures
        document_spec(tokens_of(t)) == Ok::<Seq<(Seq<char>, LeafValue)>, crate::index::IndexError>(
            render_leaves(flatten_tree(t, Seq::empty())),
        ),
        render_leaves(flatten_tree(t, Seq::empty())).len() == scalar_count(t) + empty_array_count(t),
{
    lemma_trace_value(t, at_rest(Seq::empty()));
    lemma_run_matches_trace(at_rest(Seq::empty()), tokens_of(t));
    lemma_flatten_len(t, Seq::empty());
}

/// No state leaks from one traversal into the next: a tracker that has
/// finished a document (no component left once settled) emits, on any
/// further token sequence, exactly what a fresh tracker emits.
pub proof fn lemma_no_leakage(s: PathState, tokens: Seq<StackElement>)
    requires
        settled(s).len() == 0,
    ensures
        tokens.len() > 0 ==> run_spec(s, tokens) == run_spec(at_rest(Seq::empty()), tokens),
        run_spec(s, tokens) is Ok <==> run_spec(at_rest(Seq::empty()), tokens) is Ok,
        run_spec(s, tokens) is Ok ==> run_spec(s, tokens)->Ok_0.1 == run_spec(at_rest(Seq::empty()), tokens)->Ok_0.1,
    decreases tokens.len(),
{
    if tokens.len() > 0 {
        let prev = tokens.drop_last();
        lemma_no_leakage(s, prev);
        if prev.len() == 0 {
            let token = tokens.last();
            assert(settled(s) =~= Seq::<PathElement>::empty());
            assert(push_spec(s, token) == push_spec(at_rest(Seq::empty()), token));
            assert(!(!s.pending && s.stack.len() > 0 && s.stack.last() is EmptyArray));
            assert(leaf_spec(s, token) == leaf_spec(at_rest(Seq::empty()), token));
            assert(advance_spec(s, token) == advance_spec(at_rest(Seq::empty()), token));
        }
    }
}

/// Through the pull iterator: on the tokens of a document whose numbers
/// decode, the traversal never fails, the pairs returned so far begin the
/// tree's flattening, and once the traversal has ended it has returned all of
/// it, one pair per scalar and one per empty array.
pub proof fn lemma_iterator_agrees(it: JsonIndexIterator, t: JsonTree)
    requires
        it.wf(),
        it.tokens() == tokens_of(t),
        fits(t),
        numbers_decode(flatten_tree(t, Seq::empty())),
    ensures
        !it.failed(),
        it.emitted().is_prefix_of(render_leaves(flatten_tree(t, Seq::empty()))),
        it.ended() ==> it.emitted() == render_leaves(flatten_tree(t, Seq::empty())),
        it.ended() ==> it.emitted().len() == scalar_count(t) + empty_array_count(t),
{
    lemma_flatten_agrees(t);
}

} // verus!
