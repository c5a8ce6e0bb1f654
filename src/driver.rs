//! The shift-reduce driver: runs parse tables over a token stream and builds
//! the parse tree.

use vstd::prelude::*;
use crate::text::{push_int, push_str, signed_decimal};
use crate::grammar::{
    ActionV, LR1Action, Nonterminal, ParseError, ParseTables, ParseTree, TagV, TerminalOrFinish,
    Token, lookup_action,
};

verus! {

/// The tags of the leaves of a tree, left to right.
pub open spec fn tree_yield<T>(t: ParseTree<T>) -> Seq<TagV>
    decreases t,
{
    match t {
        ParseTree::Leaf(tok) => seq![tok.tag@],
        ParseTree::Internal(_, children) => forest_yield(children@),
    }
}

/// The tags of the leaves of a sequence of trees, left to right.
pub open spec fn forest_yield<T>(s: Seq<ParseTree<T>>) -> Seq<TagV>
    decreases s,
{
    if s.len() == 0 {
        Seq::empty()
    } else {
        forest_yield(s.drop_last()) + tree_yield(s.last())
    }
}

/// Some ACTION entry reduces by a rule with left side `left` and `n`
/// symbols on its right.
pub open spec fn has_reduce(t: crate::grammar::TablesV, left: Seq<char>, n: nat) -> bool {
    exists|i: int| 0 <= i < t.action.len() && (#[trigger] t.action[i]).1 is Reduce && t.action[i].1->Reduce_0.left == left
        && t.action[i].1->Reduce_0.right.len() == n
}

/// Each internal node is labelled by the left side of some rule that the
/// tables reduce by, and has as many children as that rule has symbols
/// (arity only; the exact tree is given by `shape` and the run).
pub open spec fn tree_by_rules<T>(t: ParseTree<T>, tb: crate::grammar::TablesV) -> bool
    decreases t,
{
    match t {
        ParseTree::Leaf(_) => true,
        ParseTree::Internal(n, children) => has_reduce(tb, n@, children@.len()) && forest_by_rules(children@, tb),
    }
}

pub open spec fn forest_by_rules<T>(s: Seq<ParseTree<T>>, tb: crate::grammar::TablesV) -> bool
    decreases s,
{
    if s.len() == 0 {
        true
    } else {
        forest_by_rules(s.drop_last(), tb) && tree_by_rules(s.last(), tb)
    }
}

pub proof fn lemma_forest_by_rules_concat<T>(a: Seq<ParseTree<T>>, b: Seq<ParseTree<T>>, tb: crate::grammar::TablesV)
    ensures
        forest_by_rules(a + b, tb) == (forest_by_rules(a, tb) && forest_by_rules(b, tb)),
    decreases b.len(),
{
    if b.len() == 0 {
        assert(a + b =~= a);
    } else {
        lemma_forest_by_rules_concat(a, b.drop_last(), tb);
        assert((a + b).drop_last() =~= a + b.drop_last());
        assert((a + b).last() == b.last());
    }
}

/// The tags of a token sequence.
pub open spec fn tags<T>(s: Seq<Token<T>>) -> Seq<TagV> {
    s.map_values(|t: Token<T>| t.tag@)
}

/// A token stream as the driver takes it: one end marker, in last place.
pub open spec fn well_terminated<T>(s: Seq<Token<T>>) -> bool {
    &&& s.len() > 0
    &&& s.last().tag is Finish
    &&& forall|i: int| 0 <= i < s.len() - 1 ==> !(s[i].tag is Finish)
}

/// The tables reach a decision to accept only on the end marker.
pub open spec fn accepts_only_at_end(t: crate::grammar::TablesV) -> bool {
    forall|i: int| 0 <= i < t.action.len() && t.action[i].1 is Accept ==> t.action[i].0.1 is End
}

pub proof fn lemma_forest_yield_concat<T>(a: Seq<ParseTree<T>>, b: Seq<ParseTree<T>>)
    ensures
        forest_yield(a + b) == forest_yield(a) + forest_yield(b),
    decreases b.len(),
{
    if b.len() == 0 {
        assert(a + b =~= a);
        assert(forest_yield(b) =~= Seq::<TagV>::empty());
        assert(forest_yield(a) + forest_yield(b) =~= forest_yield(a));
    } else {
        lemma_forest_yield_concat(a, b.drop_last());
        assert((a + b).drop_last() =~= a + b.drop_last());
        assert((a + b).last() == b.last());
        assert(forest_yield(a + b) =~= forest_yield(a) + forest_yield(b));
    }
}

/// `Ok` with the value, or the error that holds the given token.
pub fn err_on_none<V, P: Clone>(res: Option<V>, token: &Token<P>) -> (r: Result<V, ParseError<P>>)
    ensures
        match res {
            Some(v) => r == Ok::<V, ParseError<P>>(v),
            None => r is Err && r->Err_0.token.tag@ == token.tag@,
        },
{
    match res {
        Some(v) => Ok(v),
        None => Err(ParseError { token: clone_token(token) }),
    }
}

pub fn clone_token<P: Clone>(token: &Token<P>) -> (r: Token<P>)
    ensures
        r.tag@ == token.tag@,
{
    Token { tag: token.tag.cloned(), attribute: token.attribute.clone() }
}

impl<T> ParseTree<T> {
    pub fn as_internal(&self) -> (r: Option<(&Nonterminal, &Vec<ParseTree<T>>)>)
        ensures
            match self {
                ParseTree::Internal(n, c) => r == Some((n, c)),
                ParseTree::Leaf(_) => r is None,
            },
    {
        match self {
            ParseTree::Internal(n, c) => Some((n, c)),
            ParseTree::Leaf(_) => None,
        }
    }

    pub fn as_leaf(&self) -> (r: Option<&Token<T>>)
        ensures
            match self {
                ParseTree::Leaf(t) => r == Some(t),
                ParseTree::Internal(..) => r is None,
            },
    {
        match self {
            ParseTree::Leaf(t) => Some(t),
            ParseTree::Internal(..) => None,
        }
    }
}

/// A parse tree as a value: leaves by their tags, internal nodes by their
/// labels.
pub enum TreeV {
    Leaf(TagV),
    Node(Seq<char>, Seq<TreeV>),
}

/// The shape of a tree.
pub open spec fn shape<T>(t: ParseTree<T>) -> TreeV
    decreases t,
{
    match t {
        ParseTree::Leaf(tok) => TreeV::Leaf(tok.tag@),
        ParseTree::Internal(n, children) => TreeV::Node(n@, shapes(children@)),
    }
}

/// The shapes of a sequence of trees.
pub open spec fn shapes<T>(s: Seq<ParseTree<T>>) -> Seq<TreeV>
    decreases s,
{
    if s.len() == 0 {
        Seq::empty()
    } else {
        shapes(s.drop_last()).push(shape(s.last()))
    }
}

pub proof fn lemma_shapes_concat<T>(a: Seq<ParseTree<T>>, b: Seq<ParseTree<T>>)
    ensures
        shapes(a + b) == shapes(a) + shapes(b),
        shapes(a).len() == a.len(),
    decreases b.len(),
{
    lemma_shapes_len(a);
    if b.len() == 0 {
        assert(a + b =~= a);
        assert(shapes(a) + shapes(b) =~= shapes(a));
    } else {
        lemma_shapes_concat(a, b.drop_last());
        assert((a + b).drop_last() =~= a + b.drop_last());
        assert((a + b).last() == b.last());
        assert(shapes(a + b) =~= shapes(a) + shapes(b));
    }
}

pub proof fn lemma_shapes_len<T>(a: Seq<ParseTree<T>>)
    ensures
        shapes(a).len() == a.len(),
    decreases a.len(),
{
    if a.len() > 0 {
        lemma_shapes_len(a.drop_last());
    }
}

/// Where one step of the driver leads.
pub enum RunEnd {
    /// No step is possible at token `k`.
    Fail(int),
    /// The tables accept at token `k`, with this tree.
    Accept(int, TreeV),
    /// The next state stack, tree stack and token index.
    Go(Seq<int>, Seq<TreeV>, int),
}

/// One step of the shift-reduce driver on a stack of states and a stack of
/// trees at token `i`: a shift pushes a leaf; a reduce by `A -> X1 .. Xk`
/// replaces the top `k` trees by a node `A` over them, in order.
pub open spec fn drive_step(tb: crate::grammar::TablesV, tg: Seq<TagV>, states: Seq<int>, trees: Seq<TreeV>, i: int) -> RunEnd {
    match lookup_action(tb.action, states.last(), tg[i]) {
        None => RunEnd::Fail(i),
        Some(ActionV::Shift(s)) => if i + 1 >= tg.len() {
            RunEnd::Fail(i)
        } else {
            RunEnd::Go(states.push(s), trees.push(TreeV::Leaf(tg[i])), i + 1)
        },
        Some(ActionV::Reduce(r)) => if r.right.len() > states.len() - 1 {
            RunEnd::Fail(i)
        } else {
            let st = states.subrange(0, states.len() - r.right.len());
            let node = TreeV::Node(r.left, trees.subrange(trees.len() - r.right.len(), trees.len() as int));
            match crate::grammar::lookup_goto(tb.goto, st.last(), r.left) {
                None => RunEnd::Fail(i),
                Some(g) => RunEnd::Go(st.push(g), trees.subrange(0, trees.len() - r.right.len()).push(node), i),
            }
        },
        Some(ActionV::Accept) => if states.len() != 2 {
            RunEnd::Fail(i)
        } else {
            RunEnd::Accept(i, trees.last())
        },
    }
}

/// The driver's run from a state stack and a tree stack at token `i`, for
/// at most `fuel` steps.
pub open spec fn drive(tb: crate::grammar::TablesV, tg: Seq<TagV>, states: Seq<int>, trees: Seq<TreeV>, i: int, fuel: nat) -> RunEnd
    decreases fuel,
{
    if fuel == 0 {
        RunEnd::Fail(i)
    } else {
        match drive_step(tb, tg, states, trees, i) {
            RunEnd::Go(st, tr, j) => drive(tb, tg, st, tr, j, (fuel - 1) as nat),
            other => other,
        }
    }
}

/// The driver's run over `tokens`, from the start state.
pub open spec fn run_of<T>(tb: crate::grammar::TablesV, tokens: Seq<Token<T>>) -> RunEnd {
    drive(tb, tags(tokens), seq![tb.start], Seq::empty(), 0, usize::MAX as nat)
}

pub open spec fn stack_view(s: Seq<i32>) -> Seq<int> {
    s.map_values(|x: i32| x as int)
}

impl<T: Clone> ParseTree<T> {
    /// Runs the tables over `tokens`. On success the tree's leaves are the
    /// tokens read before the one on which the tables accepted; with tables
    /// that accept only on the end marker, that is every token but the end
    /// marker. Each internal node is built by a reduce of the tables. An
    /// error holds the token on which no step was possible: no ACTION or
    /// GOTO entry, a shift past the end marker, a reduce or an accept that
    /// finds too few trees, or `usize::MAX` steps taken without an end (tables
    /// that reduce forever).
    #[verifier::rlimit(40)]
    pub fn from_tables_and_tokens(tables: &ParseTables, tokens: &[Token<T>]) -> (r: Result<
        ParseTree<T>,
        ParseError<T>,
    >)
        requires
            well_terminated(tokens@),
        ensures
            match r {
                Ok(tree) => exists|k: int|
                    0 <= k < tokens@.len() && #[trigger] tags(tokens@.subrange(0, k)) == tree_yield(
                        tree,
                    ) && exists|q: int| lookup_action(tables@.action, q, tokens@[k].tag@) == Some(ActionV::Accept),
                Err(e) => exists|k: int| 0 <= k < tokens@.len() && e.token.tag@ == #[trigger] tokens@[k].tag@,
            },
            r is Ok && accepts_only_at_end(tables@) ==> tree_yield(r->Ok_0) == tags(
                tokens@.drop_last(),
            ),
            r is Ok ==> tree_by_rules(r->Ok_0, tables@),
            r is Err <==> run_of(tables@, tokens@) is Fail,
            r is Ok <==> run_of(tables@, tokens@) is Accept,
            r is Err ==> 0 <= run_of(tables@, tokens@)->Fail_0 < tokens@.len()
                && r->Err_0.token.tag@ == tokens@[run_of(tables@, tokens@)->Fail_0].tag@,
            r is Ok ==> tags(tokens@.subrange(0, run_of(tables@, tokens@)->Accept_0)) == tree_yield(r->Ok_0),
            r is Ok ==> shape(r->Ok_0) == run_of(tables@, tokens@)->Accept_1,
    {
        let mut states: Vec<i32> = vec![tables.start];
        let ghost tg = tags(tokens@);
        let ghost run0 = run_of(tables@, tokens@);
        assert(stack_view(states@) =~= seq![tables.start as int]);
        let mut trees: Vec<ParseTree<T>> = Vec::new();
        assert(shapes(trees@) =~= Seq::<TreeV>::empty());
        let mut index: usize = 0;
        let mut fuel: usize = usize::MAX;
        loop
            invariant
                well_terminated(tokens@),
                index < tokens@.len(),
                states@.len() == trees@.len() + 1,
                forest_yield(trees@) == tags(tokens@.subrange(0, index as int)),
                forest_by_rules(trees@, tables@),
                tg == tags(tokens@),
                run0 == run_of(tables@, tokens@),
                run0 == drive(tables@, tg, stack_view(states@), shapes(trees@), index as int, fuel as nat),
            decreases fuel,
        {
            let token = &tokens[index];
            if fuel == 0 {
                return Err(ParseError { token: clone_token(token) });
            }
            let ghost sv = stack_view(states@);
            assert(tg[index as int] == token.tag@);
            let ghost tv = shapes(trees@);
            let ghost tv_trees = trees@;
            proof {
                lemma_shapes_len(trees@);
            }
            assert(run0 == match drive_step(tables@, tg, sv, tv, index as int) {
                RunEnd::Go(st, tr, j) => drive(tables@, tg, st, tr, j, (fuel - 1) as nat),
                other => other,
            });
            fuel -= 1;
            let cur_state = states[states.len() - 1];
            assert(sv.last() == cur_state as int);
            let action = match tables.find_action(cur_state, &token.tag) {
                Some(a) => a,
                None => return Err(ParseError { token: clone_token(token) }),
            };
            match action {
                LR1Action::Shift(state) => {
                    if index + 1 >= tokens.len() {
                        return Err(ParseError { token: clone_token(token) });
                    }
                    states.push(*state);
                    assert(stack_view(states@) =~= sv.push(*state as int));
                    let ghost old_trees = trees@;
                    let leaf = ParseTree::Leaf(clone_token(token));
                    let ghost leaf_g = leaf;
                    trees.push(leaf);
                    proof {
                        assert(trees@.drop_last() =~= old_trees);
                        assert(forest_yield(trees@) == forest_yield(old_trees) + tree_yield(leaf_g));
                        assert(trees@.last() == leaf_g);
                        assert(old_trees == tv_trees);
                        assert(shape(leaf_g) == TreeV::Leaf(tg[index as int]));
                        assert(shapes(trees@) == tv.push(TreeV::Leaf(tg[index as int])));
                        assert(trees@.last() == leaf_g);
                        assert(tree_by_rules(leaf_g, tables@));
                        assert(forest_by_rules(trees@, tables@));
                        assert(tokens@.subrange(0, index + 1).drop_last() =~= tokens@.subrange(0, index as int));
                        assert(tags(tokens@.subrange(0, index + 1)) =~= tags(tokens@.subrange(0, index as int)) + seq![tokens@[index as int].tag@]);
                    }
                    index += 1;
                },
                LR1Action::Reduce(rule) => {
                    let k = rule.right.len();
                    if k > trees.len() {
                        return Err(ParseError { token: clone_token(token) });
                    }
                    let ghost old_trees = trees@;
                    let children = trees.split_off(trees.len() - k);
                    states.truncate(states.len() - k);
                    assert(stack_view(states@) =~= sv.subrange(0, sv.len() - k));
                    assert(rule@.right.len() == k);
                    proof {
                        assert(old_trees =~= trees@ + children@);
                        lemma_forest_yield_concat(trees@, children@);
                        lemma_shapes_concat(trees@, children@);
                        lemma_shapes_len(children@);
                        assert(tv.subrange(tv.len() - k, tv.len() as int) =~= shapes(children@));
                        assert(tv.subrange(0, tv.len() - k) =~= shapes(trees@));
                        lemma_forest_by_rules_concat(trees@, children@, tables@);
                        lemma_lookup_found(tables@.action, cur_state as int, token.tag@);
                        let i = choose|i: int| 0 <= i < tables@.action.len() && tables@.action[i].0 == (cur_state as int, token.tag@)
                            && tables@.action[i].1 == lookup_action(tables@.action, cur_state as int, token.tag@)->Some_0;
                        assert(tables@.action[i].1 == action@);
                        assert(has_reduce(tables@, rule.left@, children@.len()));
                    }
                    let ghost ch = children@;
                    let node = ParseTree::Internal(rule.left.cloned(), children);
                    assert(tree_by_rules(node, tables@)) by {
                        assert(node->Internal_1@ == ch);
                        assert(node->Internal_0@ == rule.left@);
                    }
                    let ghost before = trees@;
                    trees.push(node);
                    proof {
                        assert(trees@.drop_last() =~= before);
                        assert(trees@.last() == node);
                        assert(tree_yield(node) == forest_yield(node->Internal_1@));
                        assert(forest_yield(trees@) == forest_yield(before) + tree_yield(node));
                        assert(shape(node) == TreeV::Node(rule.left@, shapes(ch)));
                        assert(shapes(trees@) == shapes(before).push(shape(node)));
                        assert(forest_by_rules(trees@, tables@));
                    }
                    let top = states[states.len() - 1];
                    let ghost sv2 = stack_view(states@);
                    assert(sv2.last() == top as int);
                    match tables.find_goto(top, &rule.left) {
                        Some(next) => {
                            states.push(next);
                            assert(stack_view(states@) =~= sv2.push(next as int));
                        },
                        None => return Err(ParseError { token: clone_token(token) }),
                    }
                },
                LR1Action::Accept => {
                    if trees.len() != 1 {
                        return Err(ParseError { token: clone_token(token) });
                    }
                    let ghost all = trees@;
                    let tree = trees.pop().unwrap();
                    proof {
                        assert(all.drop_last() =~= Seq::<ParseTree<T>>::empty());
                        assert(forest_yield(all.drop_last()) =~= Seq::<TagV>::empty());
                        assert(all.last() == tree);
                        assert(tv.last() == shape(tree));
                        assert(forest_yield(all) =~= tree_yield(tree));
                        assert(tree_by_rules(tree, tables@));
                        assert(tags(tokens@.subrange(0, index as int)) == tree_yield(tree));
                        if accepts_only_at_end(tables@) {
                            lemma_accept_at_end(tables, cur_state as int, tokens@[index as int].tag@);
                            assert(tokens@.subrange(0, index as int) =~= tokens@.drop_last());
                        }
                    }
                    return Ok(tree);
                },
            }
        }
    }
}

proof fn lemma_accept_at_end(tables: &ParseTables, q: int, t: TagV)
    requires
        accepts_only_at_end(tables@),
        lookup_action(tables@.action, q, t) == Some(ActionV::Accept),
    ensures
        t is End,
{
    lemma_lookup_found(tables@.action, q, t);
}

pub proof fn lemma_lookup_found(s: Seq<((int, TagV), ActionV)>, q: int, t: TagV)
    requires
        lookup_action(s, q, t) is Some,
    ensures
        exists|i: int| 0 <= i < s.len() && s[i].0 == (q, t) && s[i].1 == lookup_action(s, q, t)->Some_0,
    decreases s.len(),
{
    if s[0].0 != (q, t) {
        lemma_lookup_found(s.drop_first(), q, t);
        let i = choose|i: int| 0 <= i < s.drop_first().len() && s.drop_first()[i].0 == (q, t) && s.drop_first()[i].1 == lookup_action(s.drop_first(), q, t)->Some_0;
        assert(s[i + 1] == s.drop_first()[i]);
    }
}

/// Number of nodes of a tree.
pub open spec fn tree_size<T>(t: ParseTree<T>) -> nat
    decreases t,
{
    match t {
        ParseTree::Leaf(_) => 1,
        ParseTree::Internal(_, children) => 1 + forest_size(children@),
    }
}

/// Number of nodes of a sequence of trees.
pub open spec fn forest_size<T>(s: Seq<ParseTree<T>>) -> nat
    decreases s,
{
    if s.len() == 0 {
        0
    } else {
        forest_size(s.drop_last()) + tree_size(s.last())
    }
}

/// `s` followed by a closing brace and a newline.
pub open spec fn closed_graph(s: Seq<char>) -> bool {
    s.len() >= 2 && s[s.len() - 2] == '}' && s[s.len() - 1] == '\n'
}

/// The text of a tag: the terminal's name, or `$` for the end marker.
pub fn push_tag(out: &mut String, tag: &TerminalOrFinish)
    ensures
        final(out)@ == old(out)@ + tag_label(tag@),
{
    match tag {
        TerminalOrFinish::Terminal(t) => push_str(out, t.0.as_str()),
        TerminalOrFinish::Finish => push_str(out, "$"),
    }
}

/// The label of a leaf: the terminal's name, or `$` for the end marker.
pub open spec fn tag_label(t: TagV) -> Seq<char> {
    match t {
        TagV::T(n) => n,
        TagV::End => "$"@,
    }
}

/// The dot lines of a tree whose root is numbered `id`, its nodes numbered
/// in preorder.
pub open spec fn tree_dot<T>(t: ParseTree<T>, id: int) -> Seq<char>
    decreases t,
{
    match t {
        ParseTree::Leaf(tok) => signed_decimal(id) + " [label=\""@ + tag_label(tok.tag@) + "\"]\n"@,
        ParseTree::Internal(n, children) => signed_decimal(id) + " [label=\""@ + n@ + "\"]\n"@ + forest_dot(children@, id, id + 1),
    }
}

/// The dot lines of the children of node `parent`, the first numbered
/// `first`: an edge to each child, then the child's own lines.
pub open spec fn forest_dot<T>(s: Seq<ParseTree<T>>, parent: int, first: int) -> Seq<char>
    decreases s,
{
    if s.len() == 0 {
        Seq::empty()
    } else {
        let c = first + forest_size(s.drop_last());
        forest_dot(s.drop_last(), parent, first) + signed_decimal(parent) + " -> "@ + signed_decimal(c) + "\n"@ + tree_dot(s.last(), c)
    }
}

impl<T> ParseTree<T> {
    /// The tree in Graphviz's dot language.
    pub fn to_graphviz(&self) -> (r: String)
        requires
            tree_size(*self) < i32::MAX,
        ensures
            r@ == "digraph G {\n"@ + tree_dot(*self, 1) + "}\n"@,
            closed_graph(r@),
    {
        let mut counter: i32 = 0;
        let inner = self.to_graphviz_rec(&mut counter);
        let mut res = String::new();
        proof {
            reveal_strlit("}\n");
        }
        push_str(&mut res, "digraph G {\n");
        push_str(&mut res, inner.as_str());
        push_str(&mut res, "}\n");
        assert(res@ =~= "digraph G {\n"@ + tree_dot(*self, 1) + "}\n"@);
        res
    }

    /// Nodes numbered from `*counter + 1` on, in preorder, and the edges from
    /// each node to its children.
    pub fn to_graphviz_rec(&self, counter: &mut i32) -> (r: String)
        requires
            *old(counter) + tree_size(*self) < i32::MAX,
        ensures
            *final(counter) == *old(counter) + tree_size(*self),
            r@ == tree_dot(*self, *old(counter) + 1),
        decreases self,
    {
        *counter = *counter + 1;
        let id = *counter;
        let mut result = String::new();
        proof {
            reveal_strlit(" [label=\"");
            reveal_strlit("\"]\n");
            reveal_strlit(" -> ");
            reveal_strlit("\n");
        }
        match self {
            ParseTree::Internal(nterm, children) => {
                push_int(&mut result, id);
                push_str(&mut result, " [label=\"");
                push_str(&mut result, nterm.0.as_str());
                push_str(&mut result, "\"]\n");
                let ghost head = result@;
                let mut i: usize = 0;
                while i < children.len()
                    invariant
                        i <= children@.len(),
                        id == *old(counter) + 1,
                        result@ == head + forest_dot(children@.subrange(0, i as int), id as int, id + 1),
                        *self == ParseTree::Internal(*nterm, *children),
                        *counter == *old(counter) + 1 + forest_size(children@.subrange(0, i as int)),
                        *old(counter) + tree_size(*self) < i32::MAX,
                        tree_size(*self) == 1 + forest_size(children@),
                    decreases children.len() - i,
                {
                    proof {
                        lemma_forest_size_prefix(children@, i as int + 1);
                        assert(children@.subrange(0, i + 1).drop_last() =~= children@.subrange(0, i as int));
                        assert(children@.subrange(0, i + 1).last() == children@[i as int]);
                    }
                    let child_id = *counter + 1;
                    push_int(&mut result, id);
                    push_str(&mut result, " -> ");
                    push_int(&mut result, child_id);
                    push_str(&mut result, "\n");
                    let ghost before = result@;
                    let ghost c = *counter + 1;
                    let text = children[i].to_graphviz_rec(counter);
                    push_str(&mut result, text.as_str());
                    proof {
                        let sub = children@.subrange(0, i + 1);
                        assert(c == id + 1 + forest_size(sub.drop_last()));
                        assert(result@ =~= head + forest_dot(sub, id as int, id + 1));
                    }
                    i += 1;
                }
                assert(children@.subrange(0, children@.len() as int) =~= children@);
                assert(result@ =~= tree_dot(*self, *old(counter) + 1));
            },
            ParseTree::Leaf(token) => {
                push_int(&mut result, id);
                push_str(&mut result, " [label=\"");
                push_tag(&mut result, &token.tag);
                push_str(&mut result, "\"]\n");
                assert(result@ =~= tree_dot(*self, *old(counter) + 1));
            },
        }
        result
    }
}

proof fn lemma_forest_size_prefix<T>(s: Seq<ParseTree<T>>, i: int)
    requires
        0 <= i <= s.len(),
    ensures
        forest_size(s.subrange(0, i)) <= forest_size(s),
    decreases s.len() - i,
{
    if i < s.len() {
        lemma_forest_size_prefix(s, i + 1);
        assert(s.subrange(0, i + 1).drop_last() =~= s.subrange(0, i));
    } else {
        assert(s.subrange(0, i) =~= s);
    }
}

} // verus!
