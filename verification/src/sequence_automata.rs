//! Sequence automaton: a prefix trie with a failure flag.
//!
//! Nodes live in an arena (`graph`) addressed by integer indices; node 0 is
//! the root.  Each node carries its outgoing edges and the rule IDs that end
//! there.  The runtime cursor is `(curr_node, failed)`: a `Char` instruction
//! either advances the cursor, reports the matched rule IDs and resets, or
//! sets the failure flag, which only a `Reset` clears.
//!
//! The ghost model (`AutomataV`, `insert_from`, `step`, `run`) mirrors the
//! executable structure exactly; every public method relates its effect to
//! the model, and the laws about matching and unreachable sequences are
//! proved over the model.

use vstd::prelude::*;

verus! {

#[derive(Copy, Clone)]
pub enum AutomataInstruction {
    Char(char),
    Reset,
}

/// Ghost image of one trie node.
#[verifier::ext_equal]
pub ghost struct NodeV {
    pub edges: Seq<(char, usize)>,
    pub results: Seq<usize>,
}

/// Ghost image of the whole automaton.
#[verifier::ext_equal]
pub ghost struct AutomataV {
    pub curr: usize,
    pub failed: bool,
    pub nodes: Seq<NodeV>,
}

/// First edge labelled `c`, if any.
pub open spec fn find_edge(edges: Seq<(char, usize)>, c: char) -> Option<usize>
    decreases edges.len(),
{
    if edges.len() == 0 {
        None
    } else if edges[0].0 == c {
        Some(edges[0].1)
    } else {
        find_edge(edges.drop_first(), c)
    }
}

/// The single root node of an automaton with no sequences.
pub open spec fn empty_nodes() -> Seq<NodeV> {
    seq![NodeV { edges: Seq::empty(), results: Seq::empty() }]
}

/// Walk/create one edge per character starting at `at`; append `id` to the
/// terminal node's result list.
pub open spec fn insert_from(nodes: Seq<NodeV>, at: usize, s: Seq<char>, id: usize) -> Seq<NodeV>
    decreases s.len(),
{
    if s.len() == 0 {
        nodes.update(
            at as int,
            NodeV { edges: nodes[at as int].edges, results: nodes[at as int].results.push(id) },
        )
    } else {
        match find_edge(nodes[at as int].edges, s[0]) {
            Some(t) => insert_from(nodes, t, s.drop_first(), id),
            None => {
                let fresh = nodes.len() as usize;
                let grown = nodes.update(
                    at as int,
                    NodeV {
                        edges: nodes[at as int].edges.push((s[0], fresh)),
                        results: nodes[at as int].results,
                    },
                ).push(NodeV { edges: Seq::empty(), results: Seq::empty() });
                insert_from(grown, fresh, s.drop_first(), id)
            },
        }
    }
}

/// The node arena that inserting every sequence in order produces.
pub open spec fn build_nodes(seqs: Seq<Seq<char>>) -> Seq<NodeV>
    decreases seqs.len(),
{
    if seqs.len() == 0 {
        empty_nodes()
    } else {
        insert_from(build_nodes(seqs.drop_last()), 0, seqs.last(), (seqs.len() - 1) as usize)
    }
}

/// Views of a slice of sequence strings.
pub open spec fn str_views(ss: Seq<&str>) -> Seq<Seq<char>> {
    ss.map_values(|s: &str| s@)
}

/// Instruction stream feeding the characters of `s` in order.
pub open spec fn char_instr(c: char) -> AutomataInstruction {
    AutomataInstruction::Char(c)
}

pub open spec fn char_instrs(s: Seq<char>) -> Seq<AutomataInstruction> {
    Seq::new(s.len(), |i: int| char_instr(s[i]))
}

/// Length and element description of a character instruction stream.
pub proof fn lemma_char_instrs(s: Seq<char>)
    ensures
        char_instrs(s).len() == s.len(),
        forall|k: int| 0 <= k < s.len() ==> char_instrs(s)[k] == AutomataInstruction::Char(s[k]),
{
}

/// Length and element description of the views of a string slice.
pub proof fn lemma_str_views(ss: Seq<&str>)
    ensures
        str_views(ss).len() == ss.len(),
        forall|k: int| 0 <= k < ss.len() ==> str_views(ss)[k] == ss[k]@,
{
}

impl AutomataV {
    /// Arena indices are in range and the cursor points at a node.
    pub open spec fn wf(self) -> bool {
        &&& 1 <= self.nodes.len()
        &&& (self.curr as int) < self.nodes.len()
        &&& forall|j: int, k: int|
            #![trigger self.nodes[j].edges[k]]
            0 <= j < self.nodes.len() && 0 <= k < self.nodes[j].edges.len()
                ==> (self.nodes[j].edges[k].1 as int) < self.nodes.len()
    }

    /// Cursor back to the root, failure flag cleared.
    pub open spec fn reset(self) -> Self {
        AutomataV { curr: 0, failed: false, nodes: self.nodes }
    }

    /// State after one instruction.
    pub open spec fn step(self, instr: AutomataInstruction) -> Self {
        match instr {
            AutomataInstruction::Reset => self.reset(),
            AutomataInstruction::Char(c) => {
                if self.failed {
                    self
                } else {
                    match find_edge(self.nodes[self.curr as int].edges, c) {
                        Some(t) => {
                            if self.nodes[t as int].results.len() > 0 {
                                self.reset()
                            } else {
                                AutomataV { curr: t, failed: false, nodes: self.nodes }
                            }
                        },
                        None => AutomataV { curr: self.curr, failed: true, nodes: self.nodes },
                    }
                }
            },
        }
    }

    /// Rule IDs reported for one instruction.
    pub open spec fn step_result(self, instr: AutomataInstruction) -> Option<Seq<usize>> {
        match instr {
            AutomataInstruction::Reset => None,
            AutomataInstruction::Char(c) => {
                if self.failed {
                    None
                } else {
                    match find_edge(self.nodes[self.curr as int].edges, c) {
                        Some(t) => {
                            if self.nodes[t as int].results.len() > 0 {
                                Some(self.nodes[t as int].results)
                            } else {
                                None
                            }
                        },
                        None => None,
                    }
                }
            },
        }
    }
}

/// State after a whole instruction stream.
pub open spec fn run(v: AutomataV, instrs: Seq<AutomataInstruction>) -> AutomataV
    decreases instrs.len(),
{
    if instrs.len() == 0 {
        v
    } else {
        run(v.step(instrs[0]), instrs.drop_first())
    }
}

/// The reported rule IDs of every step of a stream, in order.
pub open spec fn run_outputs(v: AutomataV, instrs: Seq<AutomataInstruction>) -> Seq<
    Option<Seq<usize>>,
>
    decreases instrs.len(),
{
    if instrs.len() == 0 {
        Seq::empty()
    } else {
        seq![v.step_result(instrs[0])] + run_outputs(v.step(instrs[0]), instrs.drop_first())
    }
}

/// What the last `put` of feeding the characters of `s` reports; `None` for
/// an empty `s`.
pub open spec fn last_output(v: AutomataV, s: Seq<char>) -> Option<Seq<usize>> {
    if s.len() == 0 {
        None
    } else {
        run_outputs(v, char_instrs(s)).last()
    }
}

/// Running one more instruction steps the final state and appends its
/// report.
pub proof fn lemma_run_push(v: AutomataV, instrs: Seq<AutomataInstruction>, i: AutomataInstruction)
    ensures
        run(v, instrs.push(i)) == run(v, instrs).step(i),
        run_outputs(v, instrs.push(i)) == run_outputs(v, instrs).push(
            run(v, instrs).step_result(i),
        ),
    decreases instrs.len(),
{
    if instrs.len() == 0 {
        let e = Seq::<AutomataInstruction>::empty();
        assert(instrs.push(i)[0] == i);
        assert(instrs.push(i).drop_first() =~= e);
        assert(run(v.step(i), e) == v.step(i));
        assert(run_outputs(v.step(i), e) == Seq::<Option<Seq<usize>>>::empty());
        assert(run(v, instrs) == v);
        assert(run_outputs(v, instrs) == Seq::<Option<Seq<usize>>>::empty());
        assert(run(v, instrs.push(i)) == run(v.step(i), e));
        assert(run_outputs(v, instrs.push(i)) == seq![v.step_result(i)] + run_outputs(
            v.step(i),
            e,
        ));
        assert(run_outputs(v, instrs.push(i)) =~~= run_outputs(v, instrs).push(
            run(v, instrs).step_result(i),
        ));
    } else {
        let h = instrs[0];
        let t = instrs.drop_first();
        assert(instrs.push(i)[0] == h);
        assert(instrs.push(i).drop_first() =~= t.push(i));
        lemma_run_push(v.step(h), t, i);
        assert(run(v, instrs) == run(v.step(h), t));
        assert(run(v, instrs.push(i)) == run(v.step(h), t.push(i)));
        assert(run_outputs(v, instrs) == seq![v.step_result(h)] + run_outputs(v.step(h), t));
        assert(run_outputs(v, instrs.push(i)) == seq![v.step_result(h)] + run_outputs(
            v.step(h),
            t.push(i),
        ));
        assert(run_outputs(v, instrs.push(i)) =~~= run_outputs(v, instrs).push(
            run(v, instrs).step_result(i),
        ));
    }
}

/// No instruction changes the node arena.
pub proof fn lemma_run_nodes(v: AutomataV, instrs: Seq<AutomataInstruction>)
    ensures
        run(v, instrs).nodes == v.nodes,
    decreases instrs.len(),
{
    if instrs.len() > 0 {
        lemma_run_nodes(v.step(instrs[0]), instrs.drop_first());
    }
}

/// Each step of a stream reports once.
pub proof fn lemma_run_outputs_len(v: AutomataV, instrs: Seq<AutomataInstruction>)
    ensures
        run_outputs(v, instrs).len() == instrs.len(),
    decreases instrs.len(),
{
    if instrs.len() > 0 {
        lemma_run_outputs_len(v.step(instrs[0]), instrs.drop_first());
    }
}

/// Running a concatenation runs the two halves in turn.
pub proof fn lemma_run_append(
    v: AutomataV,
    a: Seq<AutomataInstruction>,
    b: Seq<AutomataInstruction>,
)
    ensures
        run(v, a + b) == run(run(v, a), b),
        run_outputs(v, a + b) == run_outputs(v, a) + run_outputs(run(v, a), b),
    decreases a.len(),
{
    if a.len() == 0 {
        assert(a + b =~= b);
        assert(run_outputs(v, a) =~= Seq::<Option<Seq<usize>>>::empty());
        assert(run_outputs(v, a) + run_outputs(run(v, a), b) =~= run_outputs(v, b));
    } else {
        assert((a + b)[0] == a[0]);
        assert((a + b).drop_first() =~= a.drop_first() + b);
        lemma_run_append(v.step(a[0]), a.drop_first(), b);
        assert(run(v, a) == run(v.step(a[0]), a.drop_first()));
        assert(run_outputs(v, a + b) =~= run_outputs(v, a) + run_outputs(run(v, a), b));
    }
}

/// Once the failure flag is set, every character instruction reports
/// nothing and changes nothing, until a reset.
pub proof fn lemma_failure_sink(v: AutomataV, instrs: Seq<AutomataInstruction>)
    requires
        v.failed,
        forall|k: int| 0 <= k < instrs.len() ==> (#[trigger] instrs[k]) is Char,
    ensures
        run(v, instrs) == v,
        run_outputs(v, instrs).len() == instrs.len(),
        forall|k: int| 0 <= k < instrs.len() ==> (#[trigger] run_outputs(v, instrs)[k]) is None,
    decreases instrs.len(),
{
    lemma_run_outputs_len(v, instrs);
    if instrs.len() > 0 {
        assert(instrs[0] is Char);
        assert(v.step(instrs[0]) == v);
        assert(forall|k: int|
            0 <= k < instrs.drop_first().len() ==> #[trigger] instrs.drop_first()[k] == instrs[
            k + 1]);
        lemma_failure_sink(v, instrs.drop_first());
        assert forall|k: int| 0 <= k < instrs.len() implies (#[trigger] run_outputs(
            v,
            instrs,
        )[k]) is None by {
            if k == 0 {
                assert(run_outputs(v, instrs)[0] == v.step_result(instrs[0]));
            } else {
                assert(run_outputs(v, instrs)[k] == run_outputs(v, instrs.drop_first())[k - 1]);
            }
        }
    }
}

/// The node of a single-sequence path trie: node `i` is reached after `i`
/// characters; the last node carries the rule.
pub open spec fn path_node(w: Seq<char>, results: Seq<usize>, i: int) -> NodeV {
    NodeV {
        edges: if i < w.len() {
            seq![(w[i], ((i + 1) as usize))]
        } else {
            Seq::empty()
        },
        results: if i == w.len() {
            results
        } else {
            Seq::empty()
        },
    }
}

/// The arena of a path trie for `w`, with `results` at its final node.
pub open spec fn path_nodes(w: Seq<char>, results: Seq<usize>) -> Seq<NodeV> {
    Seq::new((w.len() + 1) as nat, |i: int| path_node(w, results, i))
}

proof fn lemma_insert_path(w: Seq<char>, s: Seq<char>, id: usize)
    requires
        w.len() + s.len() + 1 <= usize::MAX,
    ensures
        insert_from(path_nodes(w, Seq::empty()), w.len() as usize, s, id) == path_nodes(
            w + s,
            seq![id],
        ),
    decreases s.len(),
{
    let mid = path_nodes(w, Seq::empty());
    let at = w.len() as usize;
    assert(mid[at as int] == path_node(w, Seq::empty(), w.len() as int));
    assert(mid[at as int].edges == Seq::<(char, usize)>::empty());
    if s.len() == 0 {
        assert(w + s =~= w);
        assert(insert_from(mid, at, s, id) == mid.update(
            at as int,
            NodeV { edges: mid[at as int].edges, results: mid[at as int].results.push(id) },
        ));
        assert(Seq::<usize>::empty().push(id) =~= seq![id]);
        assert(insert_from(mid, at, s, id) =~~= path_nodes(w + s, seq![id]));
    } else {
        assert(find_edge(mid[at as int].edges, s[0]) is None);
        let fresh = (mid.len() as usize);
        assert(fresh == w.len() + 1);
        let grown = mid.update(
            at as int,
            NodeV {
                edges: mid[at as int].edges.push((s[0], fresh)),
                results: mid[at as int].results,
            },
        ).push(NodeV { edges: Seq::empty(), results: Seq::empty() });
        assert(insert_from(mid, at, s, id) == insert_from(grown, fresh, s.drop_first(), id));
        let w2 = w.push(s[0]);
        assert(grown =~~= path_nodes(w2, Seq::empty())) by {
            assert(grown.len() == w2.len() + 1);
            assert(forall|i: int|
                0 <= i < w.len() ==> (#[trigger] grown[i]) == path_node(w, Seq::empty(), i));
            assert(grown[w.len() as int].edges =~= seq![(w2[w.len() as int], fresh)]);
            assert(grown[w2.len() as int].edges =~= Seq::<(char, usize)>::empty());
            assert forall|i: int| 0 <= i < grown.len() implies #[trigger] grown[i] =~= path_node(
                w2,
                Seq::empty(),
                i,
            ) by {
                if i < w.len() {
                    assert(grown[i] == path_node(w, Seq::empty(), i));
                    assert(w2[i] == w[i]);
                } else if i == w.len() {
                } else {
                }
            }
        }
        lemma_insert_path(w2, s.drop_first(), id);
        assert(insert_from(grown, fresh, s.drop_first(), id) == insert_from(
            path_nodes(w2, Seq::empty()),
            w2.len() as usize,
            s.drop_first(),
            id,
        ));
        assert(w2 + s.drop_first() =~= w + s);
    }
}

/// Building from one sequence yields exactly its path trie, rule 0 at the
/// end.
pub proof fn lemma_build_single(s: Seq<char>)
    requires
        s.len() + 1 <= usize::MAX,
    ensures
        build_nodes(seq![s]) == path_nodes(s, seq![0usize]),
{
    let one = seq![s];
    assert(one.drop_last() =~= Seq::<Seq<char>>::empty());
    assert(one.last() == s);
    assert(build_nodes(Seq::<Seq<char>>::empty()) == empty_nodes());
    assert(build_nodes(one) == insert_from(empty_nodes(), 0, s, 0usize));
    assert(empty_nodes() =~~= path_nodes(Seq::empty(), Seq::empty()));
    lemma_insert_path(Seq::empty(), s, 0usize);
    assert(Seq::<char>::empty() + s =~= s);
    assert(insert_from(empty_nodes(), 0, s, 0usize) == insert_from(
        path_nodes(Seq::empty(), Seq::empty()),
        0,
        s,
        0usize,
    ));
}

/// The node reached from `at` by following one edge per character.
pub open spec fn walk(nodes: Seq<NodeV>, at: usize, s: Seq<char>) -> Option<usize>
    decreases s.len(),
{
    if s.len() == 0 {
        Some(at)
    } else {
        match find_edge(nodes[at as int].edges, s[0]) {
            Some(t) => walk(nodes, t, s.drop_first()),
            None => None,
        }
    }
}

/// Walking a concatenation walks the two parts in turn.
pub proof fn lemma_walk_append(nodes: Seq<NodeV>, at: usize, x: Seq<char>, y: Seq<char>)
    ensures
        walk(nodes, at, x + y) == (match walk(nodes, at, x) {
            Some(u) => walk(nodes, u, y),
            None => None,
        }),
    decreases x.len(),
{
    if x.len() == 0 {
        assert(x + y =~= y);
    } else {
        assert((x + y)[0] == x[0]);
        assert((x + y).drop_first() =~= x.drop_first() + y);
        match find_edge(nodes[at as int].edges, x[0]) {
            Some(t) => {
                lemma_walk_append(nodes, t, x.drop_first(), y);
            },
            None => {
            },
        }
    }
}

/// A walk of one more character takes one more edge.
pub proof fn lemma_walk_snoc(nodes: Seq<NodeV>, at: usize, w: Seq<char>, c: char)
    ensures
        walk(nodes, at, w.push(c)) == (match walk(nodes, at, w) {
            Some(u) => find_edge(nodes[u as int].edges, c),
            None => None,
        }),
{
    assert(w.push(c) =~= w + seq![c]);
    lemma_walk_append(nodes, at, w, seq![c]);
    if walk(nodes, at, w) is Some {
        let u = walk(nodes, at, w)->Some_0;
        assert(seq![c].drop_first() =~= Seq::<char>::empty());
        assert(walk(nodes, u, seq![c]) == (match find_edge(nodes[u as int].edges, c) {
            Some(t) => walk(nodes, t, seq![c].drop_first()),
            None => None,
        }));
    }
}

/// Every edge leads to a node other than the root, and in range.
pub open spec fn edges_ok(nodes: Seq<NodeV>) -> bool {
    forall|j: int, k: int|
        #![trigger nodes[j].edges[k]]
        0 <= j < nodes.len() && 0 <= k < nodes[j].edges.len() ==> 1 <= nodes[j].edges[k].1
            < nodes.len()
}

/// No two distinct edges lead to the same node: each node has one parent.
pub open spec fn targets_unique(nodes: Seq<NodeV>) -> bool {
    forall|j1: int, k1: int, j2: int, k2: int|
        #![trigger nodes[j1].edges[k1], nodes[j2].edges[k2]]
        0 <= j1 < nodes.len() && 0 <= k1 < nodes[j1].edges.len() && 0 <= j2 < nodes.len() && 0
            <= k2 < nodes[j2].edges.len() && !(j1 == j2 && k1 == k2)
            ==> nodes[j1].edges[k1].1 != nodes[j2].edges[k2].1
}

/// A walk stays inside the arena.
pub proof fn lemma_walk_in_range(nodes: Seq<NodeV>, at: usize, w: Seq<char>)
    requires
        edges_ok(nodes),
        (at as int) < nodes.len(),
        walk(nodes, at, w) is Some,
    ensures
        (walk(nodes, at, w)->Some_0 as int) < nodes.len(),
    decreases w.len(),
{
    if w.len() > 0 {
        let t = find_edge(nodes[at as int].edges, w[0])->Some_0;
        lemma_find_edge_member(nodes[at as int].edges, w[0]);
        lemma_walk_in_range(nodes, t, w.drop_first());
    }
}

/// In a trie whose nodes have unique parents, each node is reached from the
/// root by exactly one string.
pub proof fn lemma_walk_injective(nodes: Seq<NodeV>, s: Seq<char>, t: Seq<char>, v: usize)
    requires
        edges_ok(nodes),
        targets_unique(nodes),
        nodes.len() >= 1,
        walk(nodes, 0, s) == Some(v),
        walk(nodes, 0, t) == Some(v),
    ensures
        s == t,
    decreases s.len() + t.len(),
{
    if s.len() == 0 && t.len() == 0 {
    } else if s.len() == 0 {
        assert(v == 0);
        assert(t =~= t.drop_last().push(t.last()));
        lemma_walk_snoc(nodes, 0, t.drop_last(), t.last());
        let u = walk(nodes, 0, t.drop_last())->Some_0;
        lemma_walk_in_range(nodes, 0, t.drop_last());
        lemma_find_edge_member(nodes[u as int].edges, t.last());
        assert(false);
    } else if t.len() == 0 {
        assert(v == 0);
        assert(s =~= s.drop_last().push(s.last()));
        lemma_walk_snoc(nodes, 0, s.drop_last(), s.last());
        let u = walk(nodes, 0, s.drop_last())->Some_0;
        lemma_walk_in_range(nodes, 0, s.drop_last());
        lemma_find_edge_member(nodes[u as int].edges, s.last());
        assert(false);
    } else {
        assert(s =~= s.drop_last().push(s.last()));
        assert(t =~= t.drop_last().push(t.last()));
        lemma_walk_snoc(nodes, 0, s.drop_last(), s.last());
        lemma_walk_snoc(nodes, 0, t.drop_last(), t.last());
        let u1 = walk(nodes, 0, s.drop_last())->Some_0;
        let u2 = walk(nodes, 0, t.drop_last())->Some_0;
        lemma_walk_in_range(nodes, 0, s.drop_last());
        lemma_walk_in_range(nodes, 0, t.drop_last());
        lemma_find_edge_member(nodes[u1 as int].edges, s.last());
        lemma_find_edge_member(nodes[u2 as int].edges, t.last());
        let k1 = choose|k: int|
            0 <= k < nodes[u1 as int].edges.len() && nodes[u1 as int].edges[k] == (s.last(), v);
        let k2 = choose|k: int|
            0 <= k < nodes[u2 as int].edges.len() && nodes[u2 as int].edges[k] == (t.last(), v);
        assert(u1 == u2 && k1 == k2) by {
            if !(u1 as int == u2 as int && k1 == k2) {
                assert(nodes[u1 as int].edges[k1].1 != nodes[u2 as int].edges[k2].1);
            }
        }
        assert(s.last() == t.last());
        lemma_walk_injective(nodes, s.drop_last(), t.drop_last(), u1);
    }
}

/// Pushing an edge keeps every existing lookup and adds one for the new
/// label.
proof fn lemma_find_edge_push(e: Seq<(char, usize)>, x: (char, usize), c: char)
    ensures
        find_edge(e.push(x), c) == (if find_edge(e, c) is Some {
            find_edge(e, c)
        } else if c == x.0 {
            Some(x.1)
        } else {
            None
        }),
    decreases e.len(),
{
    if e.len() == 0 {
        assert(e.push(x)[0] == x);
        assert(e.push(x).drop_first() =~= Seq::<(char, usize)>::empty());
        assert(find_edge(Seq::<(char, usize)>::empty(), c) is None);
    } else {
        assert(e.push(x)[0] == e[0]);
        assert(e.push(x).drop_first() =~= e.drop_first().push(x));
        lemma_find_edge_push(e.drop_first(), x, c);
    }
}

/// Walks depend only on the edges.
proof fn lemma_walk_same_edges(n1: Seq<NodeV>, n2: Seq<NodeV>, at: usize, w: Seq<char>)
    requires
        edges_ok(n1),
        (at as int) < n1.len(),
        n1.len() == n2.len(),
        forall|v: int| 0 <= v < n1.len() ==> (#[trigger] n2[v]).edges == n1[v].edges,
    ensures
        walk(n2, at, w) == walk(n1, at, w),
    decreases w.len(),
{
    if w.len() > 0 {
        match find_edge(n1[at as int].edges, w[0]) {
            Some(t) => {
                lemma_find_edge_member(n1[at as int].edges, w[0]);
                lemma_walk_same_edges(n1, n2, t, w.drop_first());
            },
            None => {
            },
        }
    }
}

/// A walk survives into any arena that keeps every existing edge lookup.
proof fn lemma_walk_mono(n1: Seq<NodeV>, n2: Seq<NodeV>, at: usize, w: Seq<char>)
    requires
        edges_ok(n1),
        (at as int) < n1.len(),
        forall|v: int, c: char|
            0 <= v < n1.len() && (#[trigger] find_edge(n1[v].edges, c)) is Some ==> find_edge(
                n2[v].edges,
                c,
            ) == find_edge(n1[v].edges, c),
        walk(n1, at, w) is Some,
    ensures
        walk(n2, at, w) == walk(n1, at, w),
    decreases w.len(),
{
    if w.len() > 0 {
        let t = find_edge(n1[at as int].edges, w[0])->Some_0;
        lemma_find_edge_member(n1[at as int].edges, w[0]);
        lemma_walk_mono(n1, n2, t, w.drop_first());
    }
}

/// What one insertion does: it preserves the trie shape and every existing
/// edge, sends no reused label into the old arena, and appends the new rule
/// ID at the end of the inserted sequence's walk, touching no other result
/// list.
proof fn lemma_insert_from_props(
    nodes: Seq<NodeV>,
    at: usize,
    s: Seq<char>,
    id: usize,
    p: Seq<char>,
)
    requires
        edges_ok(nodes),
        targets_unique(nodes),
        nodes.len() >= 1,
        nodes.len() + s.len() <= usize::MAX,
        (at as int) < nodes.len(),
        walk(nodes, 0, p) == Some(at),
    ensures
        ({
            let nodes2 = insert_from(nodes, at, s, id);
            &&& nodes.len() <= nodes2.len() <= nodes.len() + s.len()
            &&& edges_ok(nodes2)
            &&& targets_unique(nodes2)
            &&& forall|v: int, c: char|
                0 <= v < nodes.len() && (#[trigger] find_edge(nodes[v].edges, c)) is Some
                    ==> find_edge(nodes2[v].edges, c) == find_edge(nodes[v].edges, c)
            &&& forall|v: int, c: char|
                0 <= v < nodes.len() && (#[trigger] find_edge(nodes2[v].edges, c)) is Some && (
                find_edge(nodes2[v].edges, c)->Some_0 as int) < nodes.len() ==> find_edge(
                    nodes[v].edges,
                    c,
                ) == find_edge(nodes2[v].edges, c)
            &&& walk(nodes2, 0, p + s) is Some
            &&& ({
                let endv = walk(nodes2, 0, p + s)->Some_0 as int;
                &&& 0 <= endv < nodes2.len()
                &&& nodes2[endv].results == (if endv < nodes.len() {
                    nodes[endv].results
                } else {
                    Seq::<usize>::empty()
                }).push(id)
                &&& forall|v: int|
                    0 <= v < nodes2.len() && v != endv ==> (#[trigger] nodes2[v]).results == (if v
                        < nodes.len() {
                        nodes[v].results
                    } else {
                        Seq::<usize>::empty()
                    })
            })
        }),
    decreases s.len(),
{
    let nodes2 = insert_from(nodes, at, s, id);
    if s.len() == 0 {
        let updated = NodeV {
            edges: nodes[at as int].edges,
            results: nodes[at as int].results.push(id),
        };
        assert(nodes2 == nodes.update(at as int, updated));
        assert(forall|v: int| 0 <= v < nodes.len() ==> (#[trigger] nodes2[v]).edges == nodes[
            v].edges);
        assert(edges_ok(nodes2));
        assert(targets_unique(nodes2)) by {
            assert(forall|j: int, k: int|
                #![trigger nodes2[j].edges[k]]
                0 <= j < nodes2.len() && 0 <= k < nodes2[j].edges.len() ==> nodes2[j].edges[k]
                    == nodes[j].edges[k]);
        }
        lemma_walk_same_edges(nodes, nodes2, 0, p);
        assert(p + s =~= p);
        assert(walk(nodes2, 0, p + s) == Some(at));
    } else {
        match find_edge(nodes[at as int].edges, s[0]) {
            Some(t) => {
                lemma_find_edge_member(nodes[at as int].edges, s[0]);
                lemma_walk_snoc(nodes, 0, p, s[0]);
                assert(walk(nodes, 0, p.push(s[0])) == Some(t));
                lemma_insert_from_props(nodes, t, s.drop_first(), id, p.push(s[0]));
                assert(p.push(s[0]) + s.drop_first() =~= p + s);
            },
            None => {
                let fresh = nodes.len() as usize;
                let grown_mid = NodeV {
                    edges: nodes[at as int].edges.push((s[0], fresh)),
                    results: nodes[at as int].results,
                };
                let grown = nodes.update(at as int, grown_mid).push(
                    NodeV { edges: Seq::empty(), results: Seq::empty() },
                );
                assert(nodes2 == insert_from(grown, fresh, s.drop_first(), id));
                assert(grown.len() == nodes.len() + 1);

                // every old lookup survives into `grown`, and the only new
                // label leads to the fresh node
                assert forall|v: int, c: char|
                    0 <= v < nodes.len() && (#[trigger] find_edge(nodes[v].edges, c)) is Some
                    implies find_edge(grown[v].edges, c) == find_edge(nodes[v].edges, c) by {
                    if v == at as int {
                        lemma_find_edge_push(nodes[v].edges, (s[0], fresh), c);
                    }
                }
                assert(find_edge(grown[at as int].edges, s[0]) == Some(fresh)) by {
                    lemma_find_edge_push(nodes[at as int].edges, (s[0], fresh), s[0]);
                }

                assert(edges_ok(grown)) by {
                    assert forall|j: int, k: int|
                        #![trigger grown[j].edges[k]]
                        0 <= j < grown.len() && 0 <= k < grown[j].edges.len() implies 1 <= grown[
                        j].edges[k].1 < grown.len() by {
                        if j == at as int {
                            if k < nodes[j].edges.len() {
                                assert(grown[j].edges[k] == nodes[j].edges[k]);
                                assert(1 <= nodes[j].edges[k].1 < nodes.len());
                            } else {
                                assert(grown[j].edges[k] == (s[0], fresh));
                            }
                        } else if j < nodes.len() {
                            assert(grown[j].edges == nodes[j].edges);
                            assert(grown[j].edges[k] == nodes[j].edges[k]);
                            assert(1 <= nodes[j].edges[k].1 < nodes.len());
                        } else {
                            assert(grown[j].edges.len() == 0);
                        }
                    }
                }
                assert(targets_unique(grown)) by {
                    assert forall|j1: int, k1: int, j2: int, k2: int|
                        #![trigger grown[j1].edges[k1], grown[j2].edges[k2]]
                        0 <= j1 < grown.len() && 0 <= k1 < grown[j1].edges.len() && 0 <= j2
                            < grown.len() && 0 <= k2 < grown[j2].edges.len() && !(j1 == j2 && k1
                            == k2) implies grown[j1].edges[k1].1 != grown[j2].edges[k2].1 by {
                        let new1 = j1 == at as int && k1 == nodes[at as int].edges.len();
                        let new2 = j2 == at as int && k2 == nodes[at as int].edges.len();
                        assert(j1 < nodes.len() || grown[j1].edges.len() == 0);
                        assert(j2 < nodes.len() || grown[j2].edges.len() == 0);
                        if new1 && !new2 {
                            assert(grown[j1].edges[k1] == (s[0], fresh));
                            assert(grown[j2].edges[k2] == nodes[j2].edges[k2]);
                            assert(nodes[j2].edges[k2].1 < nodes.len());
                        } else if !new1 && new2 {
                            assert(grown[j1].edges[k1] == nodes[j1].edges[k1]);
                            assert(nodes[j1].edges[k1].1 < nodes.len());
                            assert(grown[j2].edges[k2] == (s[0], fresh));
                        } else if !new1 && !new2 {
                            assert(grown[j1].edges[k1] == nodes[j1].edges[k1]);
                            assert(grown[j2].edges[k2] == nodes[j2].edges[k2]);
                            assert(nodes[j1].edges[k1].1 != nodes[j2].edges[k2].1);
                        }
                    }
                }
                lemma_walk_mono(nodes, grown, 0, p);
                assert(walk(grown, 0, p) == Some(at));
                lemma_walk_snoc(grown, 0, p, s[0]);
                assert(walk(grown, 0, p.push(s[0])) == Some(fresh));
                lemma_insert_from_props(grown, fresh, s.drop_first(), id, p.push(s[0]));
                assert(p.push(s[0]) + s.drop_first() =~= p + s);

                // compose the inner call's guarantees back to `nodes`
                assert forall|v: int, c: char|
                    0 <= v < nodes.len() && (#[trigger] find_edge(nodes[v].edges, c)) is Some
                    implies find_edge(nodes2[v].edges, c) == find_edge(nodes[v].edges, c) by {
                    assert(find_edge(grown[v].edges, c) == find_edge(nodes[v].edges, c));
                }
                assert forall|v: int, c: char|
                    0 <= v < nodes.len() && (#[trigger] find_edge(nodes2[v].edges, c)) is Some
                        && (find_edge(nodes2[v].edges, c)->Some_0 as int) < nodes.len() implies
                    find_edge(nodes[v].edges, c) == find_edge(nodes2[v].edges, c) by {
                    assert(find_edge(grown[v].edges, c) == find_edge(nodes2[v].edges, c));
                    if v == at as int {
                        lemma_find_edge_push(nodes[v].edges, (s[0], fresh), c);
                    }
                }
                let endv = walk(nodes2, 0, p + s)->Some_0 as int;
                assert(nodes2[endv].results == (if endv < nodes.len() {
                    nodes[endv].results
                } else {
                    Seq::<usize>::empty()
                }).push(id)) by {
                    if endv < grown.len() {
                        assert(grown[endv].results == (if endv < nodes.len() {
                            nodes[endv].results
                        } else {
                            Seq::<usize>::empty()
                        }));
                    }
                }
                assert forall|v: int|
                    0 <= v < nodes2.len() && v != endv implies (#[trigger] nodes2[v]).results
                    == (if v < nodes.len() {
                    nodes[v].results
                } else {
                    Seq::<usize>::empty()
                }) by {
                    if v < grown.len() {
                        assert(grown[v].results == (if v < nodes.len() {
                            nodes[v].results
                        } else {
                            Seq::<usize>::empty()
                        }));
                    }
                }
            },
        }
    }
}

/// Total character count of a sequence list.
pub open spec fn total_len(seqs: Seq<Seq<char>>) -> int
    decreases seqs.len(),
{
    if seqs.len() == 0 {
        0
    } else {
        seqs.last().len() + total_len(seqs.drop_last())
    }
}

proof fn lemma_total_len_nonneg(seqs: Seq<Seq<char>>)
    ensures
        total_len(seqs) >= 0,
    decreases seqs.len(),
{
    if seqs.len() > 0 {
        lemma_total_len_nonneg(seqs.drop_last());
    }
}

/// What holds of the arena a sequence list builds: a trie whose nodes have
/// unique parents, in which every rule's sequence walks to a node listing
/// the rule, and every listed rule walks back to exactly that node.
pub open spec fn trie_invariant(nodes: Seq<NodeV>, seqs: Seq<Seq<char>>) -> bool {
    &&& nodes.len() >= 1
    &&& edges_ok(nodes)
    &&& targets_unique(nodes)
    &&& forall|id: int| 0 <= id < seqs.len() ==> walk(nodes, 0, #[trigger] seqs[id]) is Some
    &&& forall|id: int|
        0 <= id < seqs.len() ==> nodes[walk(nodes, 0, #[trigger] seqs[id])->Some_0 as int].results
            .contains(id as usize)
    &&& forall|v: int, x: int|
        #![trigger nodes[v].results[x]]
        0 <= v < nodes.len() && 0 <= x < nodes[v].results.len() ==> (nodes[v].results[x] as int)
            < seqs.len() && walk(nodes, 0, seqs[nodes[v].results[x] as int]) == Some(v as usize)
}

/// Building from any sequence list establishes the trie invariant.
pub proof fn lemma_build_invariant(seqs: Seq<Seq<char>>)
    requires
        1 + total_len(seqs) <= usize::MAX,
        seqs.len() <= usize::MAX,
    ensures
        trie_invariant(build_nodes(seqs), seqs),
        build_nodes(seqs).len() <= 1 + total_len(seqs),
    decreases seqs.len(),
{
    lemma_total_len_nonneg(seqs);
    if seqs.len() == 0 {
        let nodes = empty_nodes();
        assert(nodes[0].edges.len() == 0);
        assert(nodes[0].results.len() == 0);
        assert(edges_ok(nodes)) by {
            assert(forall|j: int|
                0 <= j < nodes.len() ==> (#[trigger] nodes[j]).edges.len() == 0);
        }
        assert(targets_unique(nodes)) by {
            assert(forall|j: int|
                0 <= j < nodes.len() ==> (#[trigger] nodes[j]).edges.len() == 0);
        }
    } else {
        let pre = seqs.drop_last();
        let s = seqs.last();
        let id = (seqs.len() - 1) as usize;
        lemma_total_len_nonneg(pre);
        lemma_build_invariant(pre);
        let nodes = build_nodes(pre);
        let nodes2 = build_nodes(seqs);
        assert(nodes2 == insert_from(nodes, 0, s, id));
        assert(nodes.len() + s.len() <= usize::MAX);
        lemma_insert_from_props(nodes, 0, s, id, Seq::empty());
        assert(Seq::<char>::empty() + s =~= s);
        assert(walk(nodes2, 0, s) is Some);
        let endv = walk(nodes2, 0, s)->Some_0 as int;
        assert(forall|i: int| 0 <= i < pre.len() ==> #[trigger] seqs[i] == pre[i]);

        // walks of the earlier rules survive the insertion
        assert forall|id2: int|
            0 <= id2 < seqs.len() implies walk(nodes2, 0, #[trigger] seqs[id2]) is Some by {
            if id2 < pre.len() {
                lemma_walk_mono(nodes, nodes2, 0, pre[id2]);
            }
        }
        assert forall|id2: int|
            0 <= id2 < seqs.len() implies nodes2[walk(nodes2, 0, #[trigger] seqs[id2])->Some_0
            as int].results.contains(id2 as usize) by {
            if id2 < pre.len() {
                lemma_walk_mono(nodes, nodes2, 0, pre[id2]);
                let v = walk(nodes, 0, pre[id2])->Some_0 as int;
                lemma_walk_in_range(nodes, 0, pre[id2]);
                let r = nodes[v].results;
                let x = choose|x: int| 0 <= x < r.len() && r[x] == id2 as usize;
                if v == endv {
                    assert(nodes2[v].results == r.push(id));
                    assert(nodes2[v].results[x] == id2 as usize);
                } else {
                    assert(nodes2[v].results == r);
                }
                assert(nodes2[v].results.contains(id2 as usize));
            } else {
                assert(seqs[id2] == s);
                assert(nodes2[endv].results.last() == id);
                assert(nodes2[endv].results.contains(id as usize));
            }
        }
        assert forall|v: int, x: int|
            #![trigger nodes2[v].results[x]]
            0 <= v < nodes2.len() && 0 <= x < nodes2[v].results.len() implies (nodes2[v].results[x]
            as int) < seqs.len() && walk(nodes2, 0, seqs[nodes2[v].results[x] as int]) == Some(
            v as usize,
        ) by {
            let old_r: Seq<usize> = if v < nodes.len() {
                nodes[v].results
            } else {
                Seq::empty()
            };
            if v == endv {
                assert(nodes2[v].results == old_r.push(id));
            } else {
                assert(nodes2[v].results == old_r);
            }
            if x < old_r.len() {
                let r = nodes[v].results[x];
                assert((r as int) < pre.len());
                assert(walk(nodes, 0, pre[r as int]) == Some(v as usize));
                lemma_walk_mono(nodes, nodes2, 0, pre[r as int]);
            } else {
                assert(v == endv && nodes2[v].results[x] == id);
            }
        }
    }
}

/// Inserting `a + ext` into a path trie for `a` first walks the existing
/// path down to its end.
proof fn lemma_insert_descend_path(a: Seq<char>, rs: Seq<usize>, ext: Seq<char>, id: usize, i: int)
    requires
        0 <= i <= a.len(),
        a.len() + ext.len() + 1 <= usize::MAX,
    ensures
        insert_from(path_nodes(a, rs), i as usize, (a + ext).skip(i), id) == insert_from(
            path_nodes(a, rs),
            a.len() as usize,
            ext,
            id,
        ),
    decreases a.len() - i,
{
    let p = path_nodes(a, rs);
    if i < a.len() {
        assert(p[i].edges == seq![(a[i], ((i + 1) as usize))]);
        assert((a + ext).skip(i)[0] == a[i]);
        assert(find_edge(p[i].edges, a[i]) == Some(((i + 1) as usize)));
        assert((a + ext).skip(i).drop_first() =~= (a + ext).skip(i + 1));
        assert((a + ext).skip(i).len() > 0);
        lemma_insert_descend_path(a, rs, ext, id, i + 1);
    } else {
        assert((a + ext).skip(a.len() as int) =~= ext);
    }
}

/// One node of an arena whose last node grew a fresh linear tail spelling
/// `s`, with `id` at the new end.
pub open spec fn tail_node(nodes0: Seq<NodeV>, s: Seq<char>, id: usize, i: int) -> NodeV {
    let base = nodes0.len() - 1;
    if i < base {
        nodes0[i]
    } else {
        let k = i - base;
        NodeV {
            edges: if k < s.len() {
                seq![(s[k], ((i + 1) as usize))]
            } else {
                Seq::empty()
            },
            results: if k == s.len() {
                if k == 0 {
                    nodes0[i].results.push(id)
                } else {
                    seq![id]
                }
            } else if k == 0 {
                nodes0[i].results
            } else {
                Seq::empty()
            },
        }
    }
}

/// The arena after growing that tail.
pub open spec fn tail_extended(nodes0: Seq<NodeV>, s: Seq<char>, id: usize) -> Seq<NodeV> {
    Seq::new((nodes0.len() + s.len()) as nat, |i: int| tail_node(nodes0, s, id, i))
}

/// Inserting from a last node without edges appends a fresh linear tail.
proof fn lemma_insert_fresh_tail(nodes0: Seq<NodeV>, s: Seq<char>, id: usize)
    requires
        nodes0.len() >= 1,
        nodes0.last().edges == Seq::<(char, usize)>::empty(),
        nodes0.len() + s.len() <= usize::MAX,
    ensures
        insert_from(nodes0, (nodes0.len() - 1) as usize, s, id) == tail_extended(nodes0, s, id),
    decreases s.len(),
{
    let base = (nodes0.len() - 1) as usize;
    if s.len() == 0 {
        assert(insert_from(nodes0, base, s, id) == nodes0.update(
            base as int,
            NodeV {
                edges: nodes0[base as int].edges,
                results: nodes0[base as int].results.push(id),
            },
        ));
        assert(insert_from(nodes0, base, s, id) =~~= tail_extended(nodes0, s, id));
    } else {
        assert(find_edge(nodes0[base as int].edges, s[0]) is None);
        let fresh = nodes0.len() as usize;
        let grown = nodes0.update(
            base as int,
            NodeV {
                edges: nodes0[base as int].edges.push((s[0], fresh)),
                results: nodes0[base as int].results,
            },
        ).push(NodeV { edges: Seq::empty(), results: Seq::empty() });
        assert(insert_from(nodes0, base, s, id) == insert_from(grown, fresh, s.drop_first(), id));
        assert(grown.last().edges == Seq::<(char, usize)>::empty());
        assert(nodes0[base as int].edges.push((s[0], fresh)) =~= seq![(s[0], fresh)]);
        lemma_insert_fresh_tail(grown, s.drop_first(), id);
        assert(tail_extended(grown, s.drop_first(), id) =~~= tail_extended(nodes0, s, id)) by {
            let lhs = tail_extended(grown, s.drop_first(), id);
            let rhs = tail_extended(nodes0, s, id);
            assert(lhs.len() == rhs.len());
            assert forall|i: int| 0 <= i < rhs.len() implies #[trigger] lhs[i] =~= rhs[i] by {
                let b0 = nodes0.len() - 1;
                if i < b0 {
                    assert(grown[i] == nodes0[i]);
                    assert(lhs[i] == tail_node(grown, s.drop_first(), id, i));
                } else if i == b0 {
                    assert(lhs[i] == grown[i]);
                } else {
                    let kk = i - b0;
                    if kk < s.len() {
                        assert(s.drop_first()[kk - 1] == s[kk]);
                    }
                    if kk == s.len() && kk == 1 {
                        assert(Seq::<usize>::empty().push(id) =~= seq![id]);
                    }
                    assert(grown[b0 + 1] == NodeV {
                        edges: Seq::<(char, usize)>::empty(),
                        results: Seq::<usize>::empty(),
                    });
                }
            }
        }
    }
}

/// One node of the arena for two rules where the first rule's sequence is
/// a strict prefix of the second's: a single chain spelling `a + ext`, rule
/// 0 ending at depth `|a|` and rule 1 at the end.
pub open spec fn pair_node(a: Seq<char>, ext: Seq<char>, i: int) -> NodeV {
    let b = a + ext;
    NodeV {
        edges: if i < b.len() {
            seq![(b[i], ((i + 1) as usize))]
        } else {
            Seq::empty()
        },
        results: if i == a.len() {
            seq![0usize]
        } else if i == b.len() {
            seq![1usize]
        } else {
            Seq::empty()
        },
    }
}

/// The arena of such a rule pair.
pub open spec fn prefix_pair_nodes(a: Seq<char>, ext: Seq<char>) -> Seq<NodeV> {
    Seq::new((a.len() + ext.len() + 1) as nat, |i: int| pair_node(a, ext, i))
}

/// Building from `[a, a + ext]` yields the single chain with both rules on
/// it.
pub proof fn lemma_build_pair(a: Seq<char>, ext: Seq<char>)
    requires
        1 <= a.len(),
        1 <= ext.len(),
        a.len() + ext.len() + 1 <= usize::MAX,
    ensures
        build_nodes(seq![a, a + ext]) == prefix_pair_nodes(a, ext),
{
    let b = a + ext;
    let seqs = seq![a, b];
    assert(seqs.drop_last() =~= seq![a]);
    assert(seqs.last() == b);
    assert(build_nodes(seqs) == insert_from(build_nodes(seq![a]), 0, b, 1usize));
    lemma_build_single(a);
    let p = path_nodes(a, seq![0usize]);
    assert(b.skip(0) =~= b);
    lemma_insert_descend_path(a, seq![0usize], ext, 1usize, 0);
    assert(insert_from(p, 0, b, 1usize) == insert_from(p, a.len() as usize, ext, 1usize));
    assert(p.len() == a.len() + 1);
    assert(p.last().edges == Seq::<(char, usize)>::empty());
    lemma_insert_fresh_tail(p, ext, 1usize);
    assert(tail_extended(p, ext, 1usize) =~~= prefix_pair_nodes(a, ext)) by {
        let lhs = tail_extended(p, ext, 1usize);
        let rhs = prefix_pair_nodes(a, ext);
        assert(lhs.len() == rhs.len());
        assert forall|i: int| 0 <= i < rhs.len() implies #[trigger] lhs[i] =~= rhs[i] by {
            if i < a.len() {
                assert(lhs[i] == p[i]);
                assert(b[i] == a[i]);
            } else if i == a.len() {
                assert(b[i] == ext[0]);
            } else {
                if i < b.len() {
                    assert(b[i] == ext[i - a.len()]);
                }
            }
        }
    }
}

/// Building from the same sequence twice puts both rules on one path.
pub proof fn lemma_build_dup(a: Seq<char>)
    requires
        1 <= a.len(),
        a.len() + 1 <= usize::MAX,
    ensures
        build_nodes(seq![a, a]) == path_nodes(a, seq![0usize, 1usize]),
{
    let seqs = seq![a, a];
    assert(seqs.drop_last() =~= seq![a]);
    assert(seqs.last() == a);
    assert(build_nodes(seqs) == insert_from(build_nodes(seq![a]), 0, a, 1usize));
    lemma_build_single(a);
    let p = path_nodes(a, seq![0usize]);
    assert(a + Seq::<char>::empty() =~= a);
    assert((a + Seq::<char>::empty()).skip(0) =~= a);
    lemma_insert_descend_path(a, seq![0usize], Seq::empty(), 1usize, 0);
    assert(insert_from(p, 0, a, 1usize) == insert_from(
        p,
        a.len() as usize,
        Seq::<char>::empty(),
        1usize,
    ));
    assert(insert_from(p, a.len() as usize, Seq::<char>::empty(), 1usize) == p.update(
        a.len() as int,
        NodeV {
            edges: p[a.len() as int].edges,
            results: p[a.len() as int].results.push(1usize),
        },
    ));
    assert(seq![0usize].push(1usize) =~= seq![0usize, 1usize]);
    assert(insert_from(p, 0, a, 1usize) =~~= path_nodes(a, seq![0usize, 1usize]));
}

/// On the rule-pair chain, a character run starting at a depth short of the
/// first rule's end only ever reports rule 0: the match there resets the
/// cursor before the second rule's node can be reached.
pub proof fn lemma_pair_feed_bounded(
    a: Seq<char>,
    ext: Seq<char>,
    st: AutomataV,
    y: Seq<AutomataInstruction>,
)
    requires
        1 <= a.len(),
        1 <= ext.len(),
        a.len() + ext.len() + 1 <= usize::MAX,
        st.nodes == prefix_pair_nodes(a, ext),
        st.failed || (st.curr as int) < a.len(),
        forall|k: int| 0 <= k < y.len() ==> (#[trigger] y[k]) is Char,
    ensures
        run(st, y).nodes == st.nodes,
        run(st, y).failed || (run(st, y).curr as int) < a.len(),
        run_outputs(st, y).len() == y.len(),
        forall|k: int|
            0 <= k < y.len() ==> ((#[trigger] run_outputs(st, y)[k]) is None || run_outputs(
                st,
                y,
            )[k] == Some(seq![0usize])),
    decreases y.len(),
{
    lemma_run_outputs_len(st, y);
    lemma_run_nodes(st, y);
    if y.len() > 0 {
        let b = a + ext;
        assert(y[0] is Char);
        let st2 = st.step(y[0]);
        let out0 = st.step_result(y[0]);
        if st.failed {
            assert(st2 == st);
            assert(out0 is None);
        } else {
            let cur = st.curr as int;
            assert(st.nodes[cur] == pair_node(a, ext, cur));
            assert(st.nodes[cur].edges == seq![(b[cur], ((cur + 1) as usize))]);
            let c = y[0]->Char_0;
            if c == b[cur] {
                assert(find_edge(st.nodes[cur].edges, c) == Some(((cur + 1) as usize)));
                assert(st.nodes[cur + 1] == pair_node(a, ext, cur + 1));
                if cur + 1 == a.len() {
                    assert(st.nodes[cur + 1].results == seq![0usize]);
                    assert(st2 == st.reset());
                    assert(out0 == Some(seq![0usize]));
                } else {
                    assert(cur + 1 < a.len());
                    assert(st.nodes[cur + 1].results == Seq::<usize>::empty());
                    assert(out0 is None);
                }
            } else {
                assert(st.nodes[cur].edges.drop_first() =~= Seq::<(char, usize)>::empty());
                assert(find_edge(Seq::<(char, usize)>::empty(), c) is None);
                assert(find_edge(st.nodes[cur].edges, c) is None);
                assert(st2.failed);
                assert(out0 is None);
            }
        }
        assert(forall|k: int|
            0 <= k < y.drop_first().len() ==> #[trigger] y.drop_first()[k] == y[k + 1]);
        lemma_pair_feed_bounded(a, ext, st2, y.drop_first());
        assert forall|k: int|
            0 <= k < y.len() implies ((#[trigger] run_outputs(st, y)[k]) is None || run_outputs(
            st,
            y,
        )[k] == Some(seq![0usize])) by {
            if k == 0 {
                assert(run_outputs(st, y)[0] == out0);
            } else {
                assert(run_outputs(st, y)[k] == run_outputs(st2, y.drop_first())[k - 1]);
            }
        }
    }
}

/// Whatever character instructions are fed, the cursor stays reachable by
/// some string no longer than the budget plus the number of steps.
proof fn lemma_run_witness_growth(
    nodes: Seq<NodeV>,
    st: AutomataV,
    y: Seq<AutomataInstruction>,
    m: int,
)
    requires
        edges_ok(nodes),
        nodes.len() >= 1,
        st.nodes == nodes,
        m >= 0,
        forall|k: int| 0 <= k < y.len() ==> (#[trigger] y[k]) is Char,
        st.failed || (exists|w: Seq<char>|
            w.len() <= m && #[trigger] walk(nodes, 0, w) == Some(st.curr)),
    ensures
        run(st, y).nodes == nodes,
        run(st, y).failed || (exists|w: Seq<char>|
            w.len() <= m + y.len() && #[trigger] walk(nodes, 0, w) == Some(run(st, y).curr)),
    decreases y.len(),
{
    lemma_run_nodes(st, y);
    if y.len() > 0 {
        let st2 = st.step(y[0]);
        assert(forall|k: int|
            0 <= k < y.drop_first().len() ==> #[trigger] y.drop_first()[k] == y[k + 1]);
        if st.failed {
            lemma_run_witness_growth(nodes, st2, y.drop_first(), m);
        } else {
            let w0 = choose|w: Seq<char>| w.len() <= m && walk(nodes, 0, w) == Some(st.curr);
            lemma_walk_in_range(nodes, 0, w0);
            let c = y[0]->Char_0;
            match find_edge(nodes[st.curr as int].edges, c) {
                None => {
                    assert(st2.failed);
                    lemma_run_witness_growth(nodes, st2, y.drop_first(), m);
                },
                Some(t) => {
                    lemma_walk_snoc(nodes, 0, w0, c);
                    assert(walk(nodes, 0, w0.push(c)) == Some(t));
                    if nodes[t as int].results.len() > 0 {
                        assert(st2 == st.reset());
                        assert(walk(nodes, 0, Seq::empty()) == Some(0usize));
                        assert(Seq::<char>::empty().len() <= 0);
                        lemma_run_witness_growth(nodes, st2, y.drop_first(), 0);
                    } else {
                        assert(st2.curr == t);
                        assert(w0.push(c).len() <= m + 1);
                        lemma_run_witness_growth(nodes, st2, y.drop_first(), m + 1);
                    }
                },
            }
        }
    }
}

/// Every result list a character run reports belongs to a node reachable
/// within the budget plus the steps taken so far.
pub proof fn lemma_run_outputs_witness(
    nodes: Seq<NodeV>,
    st: AutomataV,
    y: Seq<AutomataInstruction>,
    m: int,
)
    requires
        edges_ok(nodes),
        nodes.len() >= 1,
        st.nodes == nodes,
        m >= 0,
        forall|k: int| 0 <= k < y.len() ==> (#[trigger] y[k]) is Char,
        st.failed || (exists|w: Seq<char>|
            w.len() <= m && #[trigger] walk(nodes, 0, w) == Some(st.curr)),
    ensures
        run_outputs(st, y).len() == y.len(),
        forall|k: int|
            0 <= k < y.len() && (#[trigger] run_outputs(st, y)[k]) is Some ==> (exists|
                v: usize,
                w: Seq<char>,
            |
                #![trigger walk(nodes, 0, w), nodes[v as int].results]
                run_outputs(st, y)[k] == Some(nodes[v as int].results) && walk(nodes, 0, w)
                    == Some(v) && w.len() <= m + k + 1 && (v as int) < nodes.len()),
    decreases y.len(),
{
    lemma_run_outputs_len(st, y);
    if y.len() > 0 {
        let st2 = st.step(y[0]);
        let out0 = st.step_result(y[0]);
        assert(forall|k: int|
            0 <= k < y.drop_first().len() ==> #[trigger] y.drop_first()[k] == y[k + 1]);
        let mut m2: int = m + 1;
        if st.failed {
            assert(st2 == st && out0 is None);
            lemma_run_outputs_witness(nodes, st2, y.drop_first(), m + 1);
        } else {
            let w0 = choose|w: Seq<char>| w.len() <= m && walk(nodes, 0, w) == Some(st.curr);
            lemma_walk_in_range(nodes, 0, w0);
            let c = y[0]->Char_0;
            match find_edge(nodes[st.curr as int].edges, c) {
                None => {
                    assert(st2.failed && out0 is None);
                    lemma_run_outputs_witness(nodes, st2, y.drop_first(), m + 1);
                },
                Some(t) => {
                    lemma_walk_snoc(nodes, 0, w0, c);
                    assert(walk(nodes, 0, w0.push(c)) == Some(t));
                    if nodes[t as int].results.len() > 0 {
                        assert(out0 == Some(nodes[t as int].results));
                        assert(w0.push(c).len() <= m + 1);
                        assert(st2 == st.reset());
                        assert(walk(nodes, 0, Seq::empty()) == Some(0usize));
                        lemma_run_outputs_witness(nodes, st2, y.drop_first(), 0);
                        m2 = 0;
                    } else {
                        assert(out0 is None);
                        lemma_run_outputs_witness(nodes, st2, y.drop_first(), m + 1);
                    }
                },
            }
        }
        assert forall|k: int|
            0 <= k < y.len() && (#[trigger] run_outputs(st, y)[k]) is Some implies (exists|
            v: usize,
            w: Seq<char>,
        |
            #![trigger walk(nodes, 0, w), nodes[v as int].results]
            run_outputs(st, y)[k] == Some(nodes[v as int].results) && walk(nodes, 0, w) == Some(v)
                && w.len() <= m + k + 1 && (v as int) < nodes.len()) by {
            if k == 0 {
                assert(run_outputs(st, y)[0] == st.step_result(y[0]));
                if st.step_result(y[0]) is Some {
                    let w0 = choose|w: Seq<char>|
                        w.len() <= m && walk(nodes, 0, w) == Some(st.curr);
                    let c = y[0]->Char_0;
                    let t = find_edge(nodes[st.curr as int].edges, c)->Some_0;
                    lemma_find_edge_member(nodes[st.curr as int].edges, c);
                    assert((t as int) < nodes.len());
                    assert(run_outputs(st, y)[0] == Some(nodes[t as int].results) && walk(
                        nodes,
                        0,
                        w0.push(c),
                    ) == Some(t) && w0.push(c).len() <= m + 1 && (t as int) < nodes.len());
                }
            } else {
                assert(run_outputs(st, y)[k] == run_outputs(st2, y.drop_first())[k - 1]);
                if run_outputs(st2, y.drop_first())[k - 1] is Some {
                    let (v, w) = choose|v: usize, w: Seq<char>|
                        #![trigger walk(nodes, 0, w), nodes[v as int].results]
                        run_outputs(st2, y.drop_first())[k - 1] == Some(nodes[v as int].results)
                            && walk(nodes, 0, w) == Some(v) && w.len() <= m2 + (k - 1) + 1 && (
                        v as int) < nodes.len();
                    assert(run_outputs(st, y)[k] == Some(nodes[v as int].results) && walk(
                        nodes,
                        0,
                        w,
                    ) == Some(v) && w.len() <= m + k + 1 && (v as int) < nodes.len());
                }
            }
        }
    }
}

/// Feeding characters whose full walk ends on a result-carrying node must
/// pass through a match: afterwards the cursor is reachable by a string
/// strictly shorter than everything fed since the walk's start.
pub proof fn lemma_feed_match_forces_reset(
    nodes: Seq<NodeV>,
    st: AutomataV,
    y_chars: Seq<char>,
    z0: Seq<char>,
)
    requires
        edges_ok(nodes),
        nodes.len() >= 1,
        st.nodes == nodes,
        !st.failed,
        walk(nodes, 0, z0) == Some(st.curr),
        y_chars.len() >= 1,
        walk(nodes, 0, z0 + y_chars) is Some ==> nodes[walk(nodes, 0, z0 + y_chars)->Some_0
            as int].results.len() > 0,
    ensures
        run(st, char_instrs(y_chars)).nodes == nodes,
        run(st, char_instrs(y_chars)).failed || (exists|w: Seq<char>|
            w.len() < z0.len() + y_chars.len() && #[trigger] walk(nodes, 0, w) == Some(
                run(st, char_instrs(y_chars)).curr,
            )),
    decreases y_chars.len(),
{
    let instrs = char_instrs(y_chars);
    lemma_char_instrs(y_chars);
    lemma_run_nodes(st, instrs);
    let c = y_chars[0];
    assert(instrs[0] == AutomataInstruction::Char(c));
    let st2 = st.step(instrs[0]);
    let rest = char_instrs(y_chars.drop_first());
    lemma_char_instrs(y_chars.drop_first());
    assert(instrs.drop_first() =~= rest) by {
        assert(instrs.drop_first().len() == rest.len());
        assert(forall|j: int|
            0 <= j < rest.len() ==> y_chars[j + 1] == #[trigger] y_chars.drop_first()[j]);
    }
    assert(run(st, instrs) == run(st2, instrs.drop_first()));
    lemma_walk_in_range(nodes, 0, z0);
    match find_edge(nodes[st.curr as int].edges, c) {
        None => {
            assert(st2.failed);
            assert(forall|k: int| 0 <= k < rest.len() ==> (#[trigger] rest[k]) is Char);
            lemma_failure_sink(st2, rest);
            assert(run(st2, rest).failed);
        },
        Some(t) => {
            lemma_walk_snoc(nodes, 0, z0, c);
            assert(walk(nodes, 0, z0.push(c)) == Some(t));
            if nodes[t as int].results.len() > 0 {
                assert(st2 == st.reset());
                assert(walk(nodes, 0, Seq::empty()) == Some(0usize));
                assert(forall|k: int| 0 <= k < rest.len() ==> (#[trigger] rest[k]) is Char);
                lemma_run_witness_growth(nodes, st2, rest, 0);
                assert(run(st2, rest).failed || (exists|w: Seq<char>|
                    w.len() <= rest.len() && #[trigger] walk(nodes, 0, w) == Some(
                        run(st2, rest).curr,
                    )));
                assert(rest.len() < z0.len() + y_chars.len());
            } else {
                if y_chars.len() == 1 {
                    assert(z0 + y_chars =~= z0.push(c));
                    assert(walk(nodes, 0, z0 + y_chars) == Some(t));
                    assert(false);
                } else {
                    assert(st2.curr == t && !st2.failed);
                    assert(z0.push(c) + y_chars.drop_first() =~= z0 + y_chars);
                    lemma_feed_match_forces_reset(nodes, st2, y_chars.drop_first(), z0.push(c));
                    assert(run(st2, rest).failed || (exists|w: Seq<char>|
                        w.len() < z0.push(c).len() + y_chars.drop_first().len() && #[trigger] walk(
                            nodes,
                            0,
                            w,
                        ) == Some(run(st2, rest).curr)));
                }
            }
        },
    }
}

/// Feeding a sequence whose walk exists and crosses no result-carrying
/// node before its end reports exactly the end's results at the last
/// character, and resets.
pub proof fn lemma_follow_path(nodes: Seq<NodeV>, s: Seq<char>, k: int)
    requires
        edges_ok(nodes),
        nodes.len() >= 1,
        0 <= k < s.len(),
        walk(nodes, 0, s) is Some,
        nodes[walk(nodes, 0, s)->Some_0 as int].results.len() > 0,
        forall|j: int|
            k < j < s.len() ==> walk(nodes, 0, #[trigger] s.take(j)) is Some && nodes[walk(
                nodes,
                0,
                s.take(j),
            )->Some_0 as int].results.len() == 0,
        walk(nodes, 0, s.take(k)) is Some,
    ensures
        ({
            let st = AutomataV {
                curr: walk(nodes, 0, s.take(k))->Some_0,
                failed: false,
                nodes,
            };
            let instrs = char_instrs(s.skip(k));
            &&& run(st, instrs) == AutomataV { curr: 0, failed: false, nodes }
            &&& run_outputs(st, instrs).len() == s.len() - k
            &&& forall|j: int|
                0 <= j < s.len() - k - 1 ==> (#[trigger] run_outputs(st, instrs)[j]) is None
            &&& run_outputs(st, instrs).last() == Some(
                nodes[walk(nodes, 0, s)->Some_0 as int].results,
            )
        }),
    decreases s.len() - k,
{
    let vk = walk(nodes, 0, s.take(k))->Some_0;
    let st = AutomataV { curr: vk, failed: false, nodes };
    let instrs = char_instrs(s.skip(k));
    lemma_char_instrs(s.skip(k));
    lemma_run_outputs_len(st, instrs);
    assert(instrs.len() == s.len() - k);
    assert(s.skip(k)[0] == s[k]);
    assert(instrs[0] == AutomataInstruction::Char(s[k]));
    lemma_walk_in_range(nodes, 0, s.take(k));
    lemma_walk_snoc(nodes, 0, s.take(k), s[k]);
    assert(s.take(k).push(s[k]) =~= s.take(k + 1));
    // the next node on the walk
    assert(walk(nodes, 0, s.take(k + 1)) is Some) by {
        if k + 1 == s.len() {
            assert(s.take(k + 1) =~= s);
        } else {
            assert(walk(nodes, 0, s.take(k + 1)) is Some);
        }
    }
    let vk1 = walk(nodes, 0, s.take(k + 1))->Some_0;
    assert(find_edge(nodes[vk as int].edges, s[k]) == Some(vk1));
    let st2 = st.step(instrs[0]);
    if k + 1 == s.len() {
        assert(s.take(k + 1) =~= s);
        assert(nodes[vk1 as int].results.len() > 0);
        assert(st2 == AutomataV { curr: 0, failed: false, nodes });
        assert(st.step_result(instrs[0]) == Some(nodes[vk1 as int].results));
        assert(instrs.len() == 1);
        assert(instrs.drop_first().len() == 0);
        assert(run(st, instrs) == run(st2, instrs.drop_first()));
        assert(run_outputs(st, instrs) =~= seq![Some(nodes[vk1 as int].results)]);
    } else {
        assert(nodes[vk1 as int].results.len() == 0);
        assert(st2 == AutomataV { curr: vk1, failed: false, nodes });
        assert(st.step_result(instrs[0]) is None);
        let instrs2 = char_instrs(s.skip(k + 1));
        lemma_char_instrs(s.skip(k + 1));
        assert(instrs.drop_first() =~= instrs2) by {
            assert(instrs.drop_first().len() == instrs2.len());
            assert(forall|j: int|
                0 <= j < instrs2.len() ==> s.skip(k)[j + 1] == #[trigger] s.skip(k + 1)[j]);
        }
        lemma_follow_path(nodes, s, k + 1);
        assert(run(st, instrs) == run(st2, instrs2));
        assert(run_outputs(st, instrs) == seq![st.step_result(instrs[0])] + run_outputs(
            st2,
            instrs2,
        ));
        lemma_run_outputs_len(st2, instrs2);
        assert forall|j: int|
            0 <= j < s.len() - k - 1 implies (#[trigger] run_outputs(st, instrs)[j]) is None by {
            if j == 0 {
                assert(run_outputs(st, instrs)[0] == st.step_result(instrs[0]));
            } else {
                assert(run_outputs(st, instrs)[j] == run_outputs(st2, instrs2)[j - 1]);
            }
        }
        assert(run_outputs(st, instrs).last() == run_outputs(st2, instrs2).last());
    }
}

/// Feeding the labels of a chain-shaped stretch of the arena walks it to
/// its marked end, reports the results there, and resets.
pub proof fn lemma_chain_feed(nodes: Seq<NodeV>, b: Seq<char>, k: int, m: int)
    requires
        0 <= k < m < nodes.len(),
        m <= b.len(),
        m + 1 <= usize::MAX,
        forall|i: int| k <= i < m ==> (#[trigger] nodes[i]).edges == seq![(b[i], ((i + 1) as usize))],
        forall|i: int| k < i < m ==> (#[trigger] nodes[i]).results == Seq::<usize>::empty(),
        nodes[m].results.len() > 0,
    ensures
        ({
            let state = AutomataV { curr: k as usize, failed: false, nodes };
            let instrs = char_instrs(b.subrange(k, m));
            &&& run(state, instrs) == AutomataV { curr: 0, failed: false, nodes }
            &&& run_outputs(state, instrs).len() == m - k
            &&& forall|j: int|
                0 <= j < m - k - 1 ==> (#[trigger] run_outputs(state, instrs)[j]) is None
            &&& run_outputs(state, instrs).last() == Some(nodes[m].results)
        }),
    decreases m - k,
{
    let state = AutomataV { curr: k as usize, failed: false, nodes };
    let instrs = char_instrs(b.subrange(k, m));
    lemma_char_instrs(b.subrange(k, m));
    lemma_run_outputs_len(state, instrs);
    assert(instrs.len() == m - k);
    assert(instrs[0] == AutomataInstruction::Char(b.subrange(k, m)[0]));
    assert(b.subrange(k, m)[0] == b[k]);
    assert(nodes[k].edges == seq![(b[k], ((k + 1) as usize))]);
    assert(find_edge(nodes[k].edges, b[k]) == Some(((k + 1) as usize)));
    if k + 1 == m {
        assert(state.step(instrs[0]) == AutomataV { curr: 0, failed: false, nodes });
        assert(state.step_result(instrs[0]) == Some(nodes[m].results));
        assert(instrs.len() == 1);
        assert(instrs.drop_first().len() == 0);
        assert(run(state, instrs) == run(state.step(instrs[0]), instrs.drop_first()));
        assert(run_outputs(state, instrs) =~= seq![Some(nodes[m].results)]);
    } else {
        assert(nodes[k + 1].results == Seq::<usize>::empty());
        let state2 = AutomataV { curr: ((k + 1) as usize), failed: false, nodes };
        assert(state.step(instrs[0]) == state2);
        assert(state.step_result(instrs[0]) is None);
        let instrs2 = char_instrs(b.subrange(k + 1, m));
        lemma_char_instrs(b.subrange(k + 1, m));
        assert(instrs.drop_first() =~= instrs2) by {
            assert(instrs.drop_first().len() == instrs2.len());
            assert(forall|j: int|
                0 <= j < instrs2.len() ==> b.subrange(k, m)[j + 1] == #[trigger] b.subrange(
                    k + 1,
                    m,
                )[j]);
        }
        lemma_chain_feed(nodes, b, k + 1, m);
        assert(run(state, instrs) == run(state2, instrs2));
        assert(run_outputs(state, instrs) == seq![state.step_result(instrs[0])] + run_outputs(
            state2,
            instrs2,
        ));
        lemma_run_outputs_len(state2, instrs2);
        assert forall|j: int|
            0 <= j < m - k - 1 implies (#[trigger] run_outputs(state, instrs)[j]) is None by {
            if j == 0 {
                assert(run_outputs(state, instrs)[0] == state.step_result(instrs[0]));
            } else {
                assert(run_outputs(state, instrs)[j] == run_outputs(state2, instrs2)[j - 1]);
            }
        }
        assert(run_outputs(state, instrs).last() == run_outputs(state2, instrs2).last());
    }
}

/// Feeding a sequence to the automaton built from it alone reports rule 0
/// exactly at the last character and returns the cursor to the root, so
/// feeding it twice reports it twice.
pub proof fn lemma_reset_on_match(s: Seq<char>)
    requires
        1 <= s.len(),
        s.len() + 1 <= usize::MAX,
    ensures
        ({
            let start = AutomataV { curr: 0, failed: false, nodes: build_nodes(seq![s]) };
            let outs = run_outputs(start, char_instrs(s));
            &&& run(start, char_instrs(s)) == start
            &&& outs.len() == s.len()
            &&& outs.last() == Some(seq![0usize])
            &&& forall|j: int| 0 <= j < s.len() - 1 ==> (#[trigger] outs[j]) is None
            &&& run_outputs(start, char_instrs(s + s)) == outs + outs
        }),
{
    lemma_build_single(s);
    let nodes = path_nodes(s, seq![0usize]);
    let start = AutomataV { curr: 0, failed: false, nodes };
    assert(forall|i: int|
        0 <= i < s.len() ==> (#[trigger] nodes[i]).edges == seq![(s[i], ((i + 1) as usize))]);
    assert(forall|i: int|
        0 < i < s.len() ==> (#[trigger] nodes[i]).results == Seq::<usize>::empty());
    assert(nodes[s.len() as int].results == seq![0usize]);
    lemma_chain_feed(nodes, s, 0, s.len() as int);
    assert(s.subrange(0, s.len() as int) =~= s);
    assert(s.skip(0) =~= s);
    let instrs = char_instrs(s);
    lemma_char_instrs(s);
    lemma_char_instrs(s + s);
    assert(char_instrs(s + s) =~= instrs + instrs) by {
        assert(forall|j: int| 0 <= j < s.len() ==> (s + s)[j] == s[j]);
        assert(forall|j: int| s.len() <= j < (s + s).len() ==> (s + s)[j] == s[j - s.len()]);
    }
    lemma_run_append(start, instrs, instrs);
}

/// View of a reported result list.
pub open spec fn results_view(r: Option<Vec<usize>>) -> Option<Seq<usize>> {
    match r {
        None => None,
        Some(v) => Some(v@),
    }
}

struct Node {
    edges: Vec<(char, usize)>,
    results: Vec<usize>,
}

impl View for Node {
    type V = NodeV;

    closed spec fn view(&self) -> NodeV {
        NodeV { edges: self.edges@, results: self.results@ }
    }
}

/// View of a node arena.
spec fn nodes_view(g: Seq<Node>) -> Seq<NodeV> {
    g.map_values(|n: Node| n@)
}

pub struct SequenceAutomata {
    curr_node: usize,
    failed: bool,
    graph: Vec<Node>,
}

impl View for SequenceAutomata {
    type V = AutomataV;

    closed spec fn view(&self) -> AutomataV {
        AutomataV { curr: self.curr_node, failed: self.failed, nodes: nodes_view(self.graph@) }
    }
}

proof fn lemma_nodes_view_update(g: Seq<Node>, i: int, n: Node)
    requires
        0 <= i < g.len(),
    ensures
        nodes_view(g.update(i, n)) == nodes_view(g).update(i, n@),
{
    assert(nodes_view(g.update(i, n)) =~= nodes_view(g).update(i, n@));
}

proof fn lemma_nodes_view_push(g: Seq<Node>, n: Node)
    ensures
        nodes_view(g.push(n)) == nodes_view(g).push(n@),
{
    assert(nodes_view(g.push(n)) =~= nodes_view(g).push(n@));
}

/// A found edge target is one of the edge entries.
proof fn lemma_find_edge_member(edges: Seq<(char, usize)>, c: char)
    requires
        find_edge(edges, c) is Some,
    ensures
        exists|k: int|
            0 <= k < edges.len() && edges[k] == (c, find_edge(edges, c)->Some_0),
    decreases edges.len(),
{
    if edges.len() > 0 && edges[0].0 != c {
        lemma_find_edge_member(edges.drop_first(), c);
        let k0 = choose|k: int|
            0 <= k < edges.drop_first().len() && edges.drop_first()[k] == (
            c,
            find_edge(edges.drop_first(), c)->Some_0,
            );
        assert(edges[k0 + 1] == (c, find_edge(edges, c)->Some_0));
    }
}

impl SequenceAutomata {
    /// Build an automaton holding every given sequence; the rule ID of
    /// `sequences[i]` is `i`.
    pub fn new(sequences: &[&str]) -> (r: Self)
        ensures
            r@.curr == 0,
            !r@.failed,
            r@.nodes == build_nodes(str_views(sequences@)),
            r@.wf(),
    {
        let mut result = Self { curr_node: 0, failed: false, graph: Vec::new() };

        result.add_node();
        proof {
            assert(result@.nodes =~= empty_nodes());
            assert(build_nodes(str_views(sequences@).take(0)) =~= empty_nodes());
        }

        let n = sequences.len();
        let mut i: usize = 0;
        while i < n
            invariant
                i <= n == sequences@.len(),
                result@.curr == 0,
                !result@.failed,
                result@.wf(),
                result@.nodes == build_nodes(str_views(sequences@).take(i as int)),
            decreases n - i,
        {
            let seq_i: &str = sequences[i];
            result.add_sequence(seq_i, i);
            proof {
                let views = str_views(sequences@);
                assert(views.take(i + 1).drop_last() =~= views.take(i as int));
                assert(views.take(i + 1).last() == seq_i@);
            }
            i += 1;
        }
        proof {
            assert(str_views(sequences@).take(n as int) =~= str_views(sequences@));
        }
        result
    }

    fn add_node(&mut self) -> (idx: usize)
        ensures
            idx as int == old(self)@.nodes.len(),
            final(self)@.nodes == old(self)@.nodes.push(
                NodeV { edges: Seq::empty(), results: Seq::empty() },
            ),
            final(self)@.curr == old(self)@.curr,
            final(self)@.failed == old(self)@.failed,
    {
        let idx = self.graph.len();
        let node = Node { edges: Vec::new(), results: Vec::new() };
        proof {
            lemma_nodes_view_push(self.graph@, node);
        }
        self.graph.push(node);
        idx
    }

    /// Scan `edges` for the first edge labelled `c`.
    fn edge_target(edges: &Vec<(char, usize)>, c: char) -> (r: Option<usize>)
        ensures
            r == find_edge(edges@, c),
    {
        let n = edges.len();
        let mut i: usize = 0;
        proof {
            assert(edges@.skip(0) =~= edges@);
        }
        while i < n
            invariant
                i <= n == edges@.len(),
                find_edge(edges@, c) == find_edge(edges@.skip(i as int), c),
            decreases n - i,
        {
            let (ec, et) = edges[i];
            proof {
                assert(edges@.skip(i as int)[0] == edges@[i as int]);
            }
            if ec == c {
                return Some(et);
            }
            proof {
                assert(edges@.skip(i as int).drop_first() =~= edges@.skip(i as int + 1));
            }
            i += 1;
        }
        proof {
            assert(edges@.skip(n as int) =~= Seq::<(char, usize)>::empty());
        }
        None
    }

    fn reset(&mut self)
        ensures
            final(self)@ == old(self)@.reset(),
    {
        self.curr_node = 0;
        self.failed = false;
    }

    fn clone_results(v: &Vec<usize>) -> (r: Vec<usize>)
        ensures
            r@ == v@,
    {
        let mut r: Vec<usize> = Vec::new();
        let n = v.len();
        let mut i: usize = 0;
        while i < n
            invariant
                i <= n == v@.len(),
                r@ == v@.take(i as int),
            decreases n - i,
        {
            r.push(v[i]);
            proof {
                assert(v@.take(i + 1) =~= v@.take(i as int).push(v@[i as int]));
            }
            i += 1;
        }
        proof {
            assert(v@.take(n as int) =~= v@);
        }
        r
    }

    /// Feed one instruction; reports the rule IDs that end at the node the
    /// cursor reaches, resetting the cursor on a match so that the same
    /// sequence can match again immediately.
    pub fn put(&mut self, instruction: AutomataInstruction) -> (r: Option<Vec<usize>>)
        requires
            old(self)@.wf(),
        ensures
            final(self)@ == old(self)@.step(instruction),
            results_view(r) == old(self)@.step_result(instruction),
            final(self)@.wf(),
    {
        match instruction {
            AutomataInstruction::Char(c) => {
                if self.failed {
                    return None;
                }
                match Self::edge_target(&self.graph[self.curr_node].edges, c) {
                    Some(child) => {
                        proof {
                            lemma_find_edge_member(self@.nodes[self@.curr as int].edges, c);
                        }
                        self.curr_node = child;
                        if self.graph[child].results.len() > 0 {
                            let res = Self::clone_results(&self.graph[child].results);
                            self.reset();
                            Some(res)
                        } else {
                            None
                        }
                    },
                    None => {
                        self.failed = true;
                        None
                    },
                }
            },
            AutomataInstruction::Reset => {
                self.reset();
                None
            },
        }
    }

    fn add_sequence(&mut self, sequence: &str, id: usize)
        requires
            old(self)@.wf(),
        ensures
            final(self)@.nodes == insert_from(old(self)@.nodes, 0, sequence@, id),
            final(self)@.curr == old(self)@.curr,
            final(self)@.failed == old(self)@.failed,
            final(self)@.wf(),
    {
        let ghost orig: Seq<NodeV> = self@.nodes;
        let ghost curr0: usize = self.curr_node;
        let ghost failed0: bool = self.failed;
        let len = sequence.unicode_len();
        let mut curr: usize = 0;
        let mut i: usize = 0;
        proof {
            assert(sequence@.skip(0) =~= sequence@);
        }
        while i < len
            invariant
                i <= len == sequence@.len(),
                self@.wf(),
                (curr as int) < self@.nodes.len(),
                self@.curr == curr0,
                self@.failed == failed0,
                insert_from(orig, 0, sequence@, id) == insert_from(
                    self@.nodes,
                    curr,
                    sequence@.skip(i as int),
                    id,
                ),
            decreases len - i,
        {
            let c = sequence.get_char(i);
            let ghost pre: Seq<NodeV> = self@.nodes;
            let ghost rest: Seq<char> = sequence@.skip(i as int);
            proof {
                assert(rest[0] == sequence@[i as int]);
                assert(rest.drop_first() =~= sequence@.skip(i as int + 1));
            }
            match Self::edge_target(&self.graph[curr].edges, c) {
                Some(t) => {
                    proof {
                        lemma_find_edge_member(pre[curr as int].edges, c);
                    }
                    curr = t;
                },
                None => {
                    let fresh = self.graph.len();
                    let ghost updated = NodeV {
                        edges: pre[curr as int].edges.push((c, fresh)),
                        results: pre[curr as int].results,
                    };
                    let ghost g0 = self.graph@;
                    self.graph[curr].edges.push((c, fresh));
                    proof {
                        let g1 = self.graph@;
                        assert(g1 =~= g0.update(curr as int, g1[curr as int]));
                        lemma_nodes_view_update(g0, curr as int, g1[curr as int]);
                        assert(g1[curr as int]@ == updated);
                        assert(self@.nodes == pre.update(curr as int, updated));
                    }
                    self.add_node();
                    let ghost post: Seq<NodeV> = self@.nodes;
                    proof {
                        let empty_node = NodeV { edges: Seq::empty(), results: Seq::empty() };
                        assert(post == pre.update(curr as int, updated).push(empty_node));
                        assert forall|j: int, k: int|
                            0 <= j < post.len() && 0 <= k < post[j].edges.len() implies (
                        #[trigger] post[j].edges[k].1 as int) < post.len() by {
                            if j == curr as int {
                                if k < pre[j].edges.len() {
                                    assert(post[j].edges[k] == pre[j].edges[k]);
                                } else {
                                    assert(post[j].edges[k] == (c, fresh));
                                }
                            } else if j < pre.len() {
                                assert(post[j] == pre[j]);
                            }
                        }
                    }
                    curr = fresh;
                },
            }
            i += 1;
        }
        proof {
            assert(sequence@.skip(len as int) =~= Seq::<char>::empty());
        }
        let ghost pre: Seq<NodeV> = self@.nodes;
        let ghost g0 = self.graph@;
        self.graph[curr].results.push(id);
        proof {
            let g1 = self.graph@;
            assert(g1 =~= g0.update(curr as int, g1[curr as int]));
            lemma_nodes_view_update(g0, curr as int, g1[curr as int]);
            let node_after = NodeV {
                edges: pre[curr as int].edges,
                results: pre[curr as int].results.push(id),
            };
            assert(g1[curr as int]@ == node_after);
            assert(self@.nodes == pre.update(curr as int, node_after));
            assert forall|j: int, k: int|
                0 <= j < self@.nodes.len() && 0 <= k < self@.nodes[j].edges.len() implies (
            #[trigger] self@.nodes[j].edges[k].1 as int) < self@.nodes.len() by {
                if j != curr as int {
                    assert(self@.nodes[j] == pre[j]);
                } else {
                    assert(self@.nodes[j].edges == pre[j].edges);
                }
            }
        }
    }
}

} // verus!

