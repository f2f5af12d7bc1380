//! Configuration compiler: the pure function from the text of the
//! configuration file to the installed commands, the prelude script, the
//! interpreter line, and the sequences that can never fire.
//!
//! Every line that matches the command grammar becomes a rule; every other
//! line is kept verbatim in the prelude.  A `#!` directive at the head of
//! the trimmed prelude names the interpreter.  A rule is unreachable when
//! replaying its own sequence through the freshly built automaton does not
//! report the rule's ID.

use vstd::prelude::*;

use crate::cmd::{
    match_line_spec, scan_ws, sub_chars, trim_end_index, trim_end_spec, Cmd,
};
use crate::sequence_automata::{
    build_nodes, char_instrs, last_output, lemma_build_dup, lemma_build_invariant,
    lemma_build_pair, lemma_chain_feed, lemma_char_instrs, lemma_failure_sink,
    lemma_feed_match_forces_reset, lemma_pair_feed_bounded, lemma_run_append, lemma_run_nodes,
    lemma_run_outputs_len, lemma_run_outputs_witness, lemma_run_push, lemma_str_views,
    lemma_follow_path, lemma_walk_append, lemma_walk_in_range, lemma_walk_injective, path_nodes,
    prefix_pair_nodes,
    run, run_outputs, str_views, total_len, trie_invariant, walk, AutomataInstruction, AutomataV,
    SequenceAutomata,
};
use crate::util::{chars_string, str_chars, strings_view};

verus! {

/// The sequence/command captures of every command line, in file order.
pub open spec fn parsed_cmds(lines: Seq<Seq<char>>) -> Seq<(Seq<char>, Seq<char>)>
    decreases lines.len(),
{
    if lines.len() == 0 {
        Seq::empty()
    } else {
        (match match_line_spec(lines[0], 2) {
            Some(p) => seq![p],
            None => Seq::empty(),
        }) + parsed_cmds(lines.drop_first())
    }
}

/// Every line that is not a command, verbatim and in file order.
pub open spec fn prelude_lines(lines: Seq<Seq<char>>) -> Seq<Seq<char>>
    decreases lines.len(),
{
    if lines.len() == 0 {
        Seq::empty()
    } else {
        (match match_line_spec(lines[0], 2) {
            Some(p) => Seq::empty(),
            None => seq![lines[0]],
        }) + prelude_lines(lines.drop_first())
    }
}

/// Lines joined with a line break between each pair.
pub open spec fn joined(ls: Seq<Seq<char>>) -> Seq<char>
    decreases ls.len(),
{
    if ls.len() == 0 {
        Seq::empty()
    } else if ls.len() == 1 {
        ls[0]
    } else {
        ls[0] + seq!['\n'] + joined(ls.drop_first())
    }
}

/// View of a command list as its capture pairs.
pub open spec fn cmds_view(cs: Seq<Cmd>) -> Seq<(Seq<char>, Seq<char>)> {
    cs.map_values(|c: Cmd| (c.sequence@, c.command@))
}

/// The sequences of a list of captures.
pub open spec fn firsts(ps: Seq<(Seq<char>, Seq<char>)>) -> Seq<Seq<char>> {
    ps.map_values(|p: (Seq<char>, Seq<char>)| p.0)
}

/// End of the run of non-line-break characters starting at `from`.
pub open spec fn line_run_end(s: Seq<char>, from: int) -> int
    decreases s.len() - from,
{
    if 0 <= from < s.len() && s[from] != '\n' {
        line_run_end(s, from + 1)
    } else {
        from
    }
}

/// The space-separated tokens of `s` from `from`, with `cur` the token read
/// so far; empty tokens are dropped.
pub open spec fn split_acc(s: Seq<char>, from: int, cur: Seq<char>) -> Seq<Seq<char>>
    decreases s.len() - from,
{
    if !(0 <= from < s.len()) {
        if cur.len() > 0 {
            seq![cur]
        } else {
            Seq::empty()
        }
    } else if s[from] == ' ' {
        (if cur.len() > 0 {
            seq![cur]
        } else {
            Seq::empty()
        }) + split_acc(s, from + 1, Seq::empty())
    } else {
        split_acc(s, from + 1, cur.push(s[from]))
    }
}

/// The interpreter argv named by a `#!` directive at the head of the
/// trimmed text, if any: the rest of the directive's line, split on spaces.
pub open spec fn shebang_args(text: Seq<char>) -> Option<Seq<Seq<char>>> {
    let a = crate::cmd::ws_run_end(text, 0);
    let m = trim_end_spec(text).len() as int;
    if a + 2 <= m && text[a] == '#' && text[a + 1] == '!' {
        let e = line_run_end(text, a + 2);
        let x = if e < m {
            e
        } else {
            m
        };
        Some(split_acc(text.subrange(a + 2, x), 0, Seq::empty()))
    } else {
        None
    }
}

/// The state of a freshly built automaton.
pub open spec fn initial_state(seqs: Seq<Seq<char>>) -> AutomataV {
    AutomataV { curr: 0, failed: false, nodes: build_nodes(seqs) }
}

/// Replaying rule `i`'s own sequence from a reset automaton reports `i`.
pub open spec fn rule_reachable(seqs: Seq<Seq<char>>, i: int) -> bool {
    let out = last_output(initial_state(seqs), seqs[i]);
    out is Some && out->Some_0.contains(i as usize)
}

/// The sequences of the rules from `i` on that cannot fire, in rule order.
pub open spec fn unreachable_from(seqs: Seq<Seq<char>>, i: int) -> Seq<Seq<char>>
    decreases seqs.len() - i,
{
    if !(0 <= i < seqs.len()) {
        Seq::empty()
    } else {
        (if rule_reachable(seqs, i) {
            Seq::empty()
        } else {
            seq![seqs[i]]
        }) + unreachable_from(seqs, i + 1)
    }
}

/// Unreachable-detection soundness, one direction: a rule whose sequence
/// strictly extends an earlier rule's sequence is reported unreachable —
/// replaying it, the earlier rule matches first and resets the cursor, so
/// the replay can only ever report rule 0.
pub proof fn lemma_prefix_rule_unreachable(a: Seq<char>, ext: Seq<char>)
    requires
        1 <= a.len(),
        1 <= ext.len(),
        a.len() + ext.len() + 1 <= usize::MAX,
    ensures
        rule_reachable(seq![a, a + ext], 0),
        !rule_reachable(seq![a, a + ext], 1),
        unreachable_from(seq![a, a + ext], 0) == seq![a + ext],
{
    let b = a + ext;
    let seqs = seq![a, b];
    lemma_build_pair(a, ext);
    let nodes = prefix_pair_nodes(a, ext);
    let init = initial_state(seqs);
    assert(init == AutomataV { curr: 0, failed: false, nodes });

    assert(forall|i: int|
        0 <= i < a.len() ==> (#[trigger] nodes[i]).edges == seq![(b[i], ((i + 1) as usize))]);
    assert(forall|i: int|
        0 < i < a.len() ==> (#[trigger] nodes[i]).results == Seq::<usize>::empty());
    assert(nodes[a.len() as int].results == seq![0usize]);
    lemma_chain_feed(nodes, b, 0, a.len() as int);
    assert(b.subrange(0, a.len() as int) =~= a);
    let outs0 = run_outputs(init, char_instrs(a));
    assert(outs0.last() == Some(seq![0usize]));
    assert(seq![0usize].contains(0usize)) by {
        assert(seq![0usize][0] == 0usize);
    }
    assert(rule_reachable(seqs, 0));

    lemma_char_instrs(b);
    assert(forall|k: int|
        0 <= k < char_instrs(b).len() ==> (#[trigger] char_instrs(b)[k]) is Char);
    lemma_pair_feed_bounded(a, ext, init, char_instrs(b));
    let outs1 = run_outputs(init, char_instrs(b));
    assert(outs1.len() == b.len());
    assert(!seq![0usize].contains(1usize)) by {
        assert(forall|x: int| 0 <= x < seq![0usize].len() ==> seq![0usize][x] == 0usize);
    }
    assert(outs1.last() is None || outs1.last() == Some(seq![0usize])) by {
        assert(outs1[b.len() - 1] is None || outs1[b.len() - 1] == Some(seq![0usize]));
    }
    assert(!rule_reachable(seqs, 1));

    assert(unreachable_from(seqs, 2) == Seq::<Seq<char>>::empty());
    assert(unreachable_from(seqs, 1) =~~= seq![b]);
    assert(unreachable_from(seqs, 0) =~~= seq![b]);
}

/// Unreachable-detection soundness for any rule list: a rule whose
/// sequence strictly extends another rule's sequence is reported
/// unreachable.  Replaying it, the shorter rule's node must be crossed and
/// its match resets the cursor, so no node deep enough to carry the longer
/// rule can be reached before the replay runs out of characters.
pub proof fn lemma_prefix_rule_unreachable_general(seqs: Seq<Seq<char>>, ia: int, ib: int)
    requires
        0 <= ia < seqs.len(),
        0 <= ib < seqs.len(),
        1 <= seqs[ia].len() < seqs[ib].len(),
        seqs[ib].take(seqs[ia].len() as int) == seqs[ia],
        1 + total_len(seqs) <= usize::MAX,
        seqs.len() <= usize::MAX,
    ensures
        !rule_reachable(seqs, ib),
{
    let a = seqs[ia];
    let b = seqs[ib];
    let ext = b.skip(a.len() as int);
    assert(b =~= a + ext);
    assert(ext.len() >= 1);
    lemma_build_invariant(seqs);
    let nodes = build_nodes(seqs);
    let init = initial_state(seqs);
    assert(init == AutomataV { curr: 0, failed: false, nodes });
    let instrs_a = char_instrs(a);
    let instrs_e = char_instrs(ext);
    let instrs_b = char_instrs(b);
    lemma_char_instrs(a);
    lemma_char_instrs(ext);
    lemma_char_instrs(b);
    assert(instrs_b =~= instrs_a + instrs_e) by {
        assert(forall|j: int| 0 <= j < a.len() ==> b[j] == a[j]);
        assert(forall|j: int| a.len() <= j < b.len() ==> b[j] == ext[j - a.len()]);
    }
    lemma_run_append(init, instrs_a, instrs_e);

    assert(trie_invariant(nodes, seqs));
    assert(walk(nodes, 0, seqs[ia]) is Some);
    let enda = walk(nodes, 0, a)->Some_0;
    assert(nodes[walk(nodes, 0, seqs[ia])->Some_0 as int].results.contains(ia as usize));
    assert(nodes[enda as int].results.contains(ia as usize));
    assert(nodes[enda as int].results.len() > 0) by {
        let x = choose|x: int|
            0 <= x < nodes[enda as int].results.len() && nodes[enda as int].results[x] == (
            ia as usize);
    }
    assert(Seq::<char>::empty() + a =~= a);
    assert(walk(nodes, 0, Seq::empty()) == Some(0usize));
    lemma_feed_match_forces_reset(nodes, init, a, Seq::empty());
    let st1 = run(init, instrs_a);

    let outs2 = run_outputs(st1, instrs_e);
    lemma_run_outputs_len(st1, instrs_e);
    lemma_run_outputs_len(init, instrs_a);
    lemma_run_outputs_len(init, instrs_b);
    let outs_b = run_outputs(init, instrs_b);
    assert(outs_b == run_outputs(init, instrs_a) + outs2);
    assert(outs_b.last() == outs2.last()) by {
        assert(outs_b[b.len() - 1] == outs2[ext.len() - 1]);
    }
    assert(forall|k: int| 0 <= k < instrs_e.len() ==> (#[trigger] instrs_e[k]) is Char);

    if st1.failed {
        lemma_failure_sink(st1, instrs_e);
        assert(outs2[ext.len() - 1] is None);
    } else {
        let w1 = choose|w: Seq<char>|
            w.len() < a.len() && #[trigger] walk(nodes, 0, w) == Some(st1.curr);
        assert(w1.len() <= a.len() - 1 && walk(nodes, 0, w1) == Some(st1.curr));
        lemma_run_outputs_witness(nodes, st1, instrs_e, a.len() - 1);
        let k = ext.len() - 1;
        if outs2[k] is Some {
            let res = outs2[k]->Some_0;
            if res.contains(ib as usize) {
                let (v, w) = choose|v: usize, w: Seq<char>|
                    #![trigger walk(nodes, 0, w), nodes[v as int].results]
                    outs2[k] == Some(nodes[v as int].results) && walk(nodes, 0, w) == Some(v)
                        && w.len() <= (a.len() - 1) + k + 1 && (v as int) < nodes.len();
                assert(w.len() <= b.len() - 1);
                assert(nodes[v as int].results.contains(ib as usize));
                let x = choose|x: int|
                    0 <= x < nodes[v as int].results.len() && nodes[v as int].results[x] == (
                    ib as usize);
                assert((nodes[v as int].results[x] as int) == ib);
                assert(walk(nodes, 0, seqs[nodes[v as int].results[x] as int]) == Some(v));
                assert(walk(nodes, 0, seqs[ib]) == Some(v));
                lemma_walk_injective(nodes, w, b, v);
                assert(false);
            }
        }
    }
    assert(last_output(init, b) == outs_b.last());
}

/// Unreachable-detection completeness for duplicates in any rule list: two
/// rules sharing one sequence both fire at its last character — neither is
/// reported unreachable — provided no other rule's sequence is a strict
/// prefix of theirs, which would reset the replay early.
pub proof fn lemma_duplicate_rules_reachable_general(seqs: Seq<Seq<char>>, ia: int, ib: int)
    requires
        0 <= ia < seqs.len(),
        0 <= ib < seqs.len(),
        seqs[ia] == seqs[ib],
        1 <= seqs[ia].len(),
        forall|j: int|
            0 <= j < seqs.len() ==> !((#[trigger] seqs[j]).len() < seqs[ia].len() && seqs[
            ia].take(seqs[j].len() as int) == seqs[j]),
        1 + total_len(seqs) <= usize::MAX,
        seqs.len() <= usize::MAX,
    ensures
        rule_reachable(seqs, ia),
        rule_reachable(seqs, ib),
{
    let a = seqs[ia];
    lemma_build_invariant(seqs);
    let nodes = build_nodes(seqs);
    let init = initial_state(seqs);
    assert(trie_invariant(nodes, seqs));
    assert(walk(nodes, 0, seqs[ia]) is Some);
    let enda = walk(nodes, 0, a)->Some_0;
    assert(nodes[walk(nodes, 0, seqs[ia])->Some_0 as int].results.contains(ia as usize));
    assert(nodes[walk(nodes, 0, seqs[ib])->Some_0 as int].results.contains(ib as usize));
    assert(nodes[enda as int].results.contains(ia as usize));
    assert(nodes[enda as int].results.contains(ib as usize));
    assert(nodes[enda as int].results.len() > 0) by {
        let x = choose|x: int|
            0 <= x < nodes[enda as int].results.len() && nodes[enda as int].results[x] == (
            ia as usize);
    }

    // prefixes of `a` walk to nodes carrying no results: a listed rule
    // there would be a strict prefix of `a`
    assert forall|j: int|
        0 < j < a.len() implies walk(nodes, 0, #[trigger] a.take(j)) is Some && nodes[walk(
        nodes,
        0,
        a.take(j),
    )->Some_0 as int].results.len() == 0 by {
        assert(a =~= a.take(j) + a.skip(j));
        lemma_walk_append(nodes, 0, a.take(j), a.skip(j));
        assert(walk(nodes, 0, a.take(j)) is Some);
        let vj = walk(nodes, 0, a.take(j))->Some_0;
        lemma_walk_in_range(nodes, 0, a.take(j));
        if nodes[vj as int].results.len() > 0 {
            let r = nodes[vj as int].results[0];
            assert((r as int) < seqs.len());
            assert(walk(nodes, 0, seqs[r as int]) == Some(vj));
            lemma_walk_injective(nodes, seqs[r as int], a.take(j), vj);
            assert(seqs[r as int].len() == j < a.len());
            assert(a.take(seqs[r as int].len() as int) == seqs[r as int]);
            assert(false);
        }
    }

    assert(a.take(0) =~= Seq::<char>::empty());
    assert(walk(nodes, 0, a.take(0)) == Some(0usize));
    lemma_follow_path(nodes, a, 0);
    assert(a.skip(0) =~= a);
    let outs = run_outputs(init, char_instrs(a));
    assert(outs.last() == Some(nodes[enda as int].results));
    assert(rule_reachable(seqs, ia));
    assert(rule_reachable(seqs, ib));
}

proof fn lemma_unreachable_from_membership(seqs: Seq<Seq<char>>, i: int, j: int)
    requires
        0 <= j <= i < seqs.len(),
        !rule_reachable(seqs, i),
    ensures
        unreachable_from(seqs, j).contains(seqs[i]),
    decreases i - j,
{
    let head: Seq<Seq<char>> = if rule_reachable(seqs, j) {
        Seq::empty()
    } else {
        seq![seqs[j]]
    };
    let whole = unreachable_from(seqs, j);
    assert(whole == head + unreachable_from(seqs, j + 1));
    if j == i {
        assert(whole[0] == seqs[i]);
    } else {
        lemma_unreachable_from_membership(seqs, i, j + 1);
        let x = choose|x: int|
            0 <= x < unreachable_from(seqs, j + 1).len() && #[trigger] unreachable_from(
                seqs,
                j + 1,
            )[x] == seqs[i];
        assert(whole[head.len() + x] == seqs[i]);
    }
}

/// A rule whose replay does not report its own ID stands in the reported
/// unreachable-sequences list.
pub proof fn lemma_unreachable_is_reported(seqs: Seq<Seq<char>>, i: int)
    requires
        0 <= i < seqs.len(),
        !rule_reachable(seqs, i),
    ensures
        unreachable_from(seqs, 0).contains(seqs[i]),
{
    lemma_unreachable_from_membership(seqs, i, 0);
}

/// Unreachable-detection soundness, the other direction: two rules sharing
/// one sequence both fire at its last character, and neither is reported
/// unreachable.
pub proof fn lemma_duplicate_rules_reachable(a: Seq<char>)
    requires
        1 <= a.len(),
        a.len() + 1 <= usize::MAX,
    ensures
        rule_reachable(seq![a, a], 0),
        rule_reachable(seq![a, a], 1),
        unreachable_from(seq![a, a], 0) == Seq::<Seq<char>>::empty(),
{
    let seqs = seq![a, a];
    lemma_build_dup(a);
    let nodes = path_nodes(a, seq![0usize, 1usize]);
    let init = initial_state(seqs);
    assert(init == AutomataV { curr: 0, failed: false, nodes });

    assert(forall|i: int|
        0 <= i < a.len() ==> (#[trigger] nodes[i]).edges == seq![(a[i], ((i + 1) as usize))]);
    assert(forall|i: int|
        0 < i < a.len() ==> (#[trigger] nodes[i]).results == Seq::<usize>::empty());
    assert(nodes[a.len() as int].results == seq![0usize, 1usize]);
    lemma_chain_feed(nodes, a, 0, a.len() as int);
    assert(a.subrange(0, a.len() as int) =~= a);
    let outs = run_outputs(init, char_instrs(a));
    assert(outs.last() == Some(seq![0usize, 1usize]));
    assert(seq![0usize, 1usize].contains(0usize)) by {
        assert(seq![0usize, 1usize][0] == 0usize);
    }
    assert(seq![0usize, 1usize].contains(1usize)) by {
        assert(seq![0usize, 1usize][1] == 1usize);
    }
    assert(rule_reachable(seqs, 0));
    assert(rule_reachable(seqs, 1));

    assert(unreachable_from(seqs, 2) == Seq::<Seq<char>>::empty());
    assert(unreachable_from(seqs, 1) =~~= Seq::<Seq<char>>::empty());
    assert(unreachable_from(seqs, 0) =~~= Seq::<Seq<char>>::empty());
}

proof fn lemma_parsed_cmds_push(lines: Seq<Seq<char>>, x: Seq<char>)
    ensures
        parsed_cmds(lines.push(x)) == parsed_cmds(lines) + (match match_line_spec(x, 2) {
            Some(p) => seq![p],
            None => Seq::empty(),
        }),
        prelude_lines(lines.push(x)) == prelude_lines(lines) + (match match_line_spec(x, 2) {
            Some(p) => Seq::empty(),
            None => seq![x],
        }),
    decreases lines.len(),
{
    let one_c: Seq<(Seq<char>, Seq<char>)> = match match_line_spec(x, 2) {
        Some(p) => seq![p],
        None => Seq::empty(),
    };
    let one_p: Seq<Seq<char>> = match match_line_spec(x, 2) {
        Some(p) => Seq::empty(),
        None => seq![x],
    };
    if lines.len() == 0 {
        let e = Seq::<Seq<char>>::empty();
        assert(lines.push(x)[0] == x);
        assert(lines.push(x).drop_first() =~= e);
        assert(parsed_cmds(e) == Seq::<(Seq<char>, Seq<char>)>::empty());
        assert(prelude_lines(e) == Seq::<Seq<char>>::empty());
        assert(parsed_cmds(lines.push(x)) == one_c + parsed_cmds(e));
        assert(prelude_lines(lines.push(x)) == one_p + prelude_lines(e));
        assert(parsed_cmds(lines.push(x)) =~~= parsed_cmds(lines) + one_c);
        assert(prelude_lines(lines.push(x)) =~~= prelude_lines(lines) + one_p);
    } else {
        let h = lines[0];
        let t = lines.drop_first();
        let head_c: Seq<(Seq<char>, Seq<char>)> = match match_line_spec(h, 2) {
            Some(p) => seq![p],
            None => Seq::empty(),
        };
        let head_p: Seq<Seq<char>> = match match_line_spec(h, 2) {
            Some(p) => Seq::empty(),
            None => seq![h],
        };
        assert(lines.push(x)[0] == h);
        assert(lines.push(x).drop_first() =~= t.push(x));
        lemma_parsed_cmds_push(t, x);
        assert(parsed_cmds(lines) == head_c + parsed_cmds(t));
        assert(prelude_lines(lines) == head_p + prelude_lines(t));
        assert(parsed_cmds(lines.push(x)) == head_c + parsed_cmds(t.push(x)));
        assert(prelude_lines(lines.push(x)) == head_p + prelude_lines(t.push(x)));
        assert(parsed_cmds(lines.push(x)) =~~= parsed_cmds(lines) + one_c);
        assert(prelude_lines(lines.push(x)) =~~= prelude_lines(lines) + one_p);
    }
}

pub(crate) proof fn lemma_joined_push(ls: Seq<Seq<char>>, l: Seq<char>)
    ensures
        joined(ls.push(l)) == (if ls.len() == 0 {
            l
        } else {
            joined(ls) + seq!['\n'] + l
        }),
    decreases ls.len(),
{
    if ls.len() == 0 {
        assert(ls.push(l)[0] == l);
    } else if ls.len() == 1 {
        assert(ls.push(l)[0] == ls[0]);
        assert(ls.push(l).drop_first() =~= seq![l]);
        assert(joined(seq![l]) == l);
    } else {
        assert(ls.push(l)[0] == ls[0]);
        assert(ls.push(l).drop_first() =~= ls.drop_first().push(l));
        lemma_joined_push(ls.drop_first(), l);
        assert(ls[0] + seq!['\n'] + (joined(ls.drop_first()) + seq!['\n'] + l) =~= (ls[0]
            + seq!['\n'] + joined(ls.drop_first())) + seq!['\n'] + l);
    }
}

/// Split every line into a command or a prelude line; the prelude keeps the
/// non-command lines joined with line breaks.
pub fn parse_lines(lines: &[String]) -> (r: (Vec<Cmd>, String))
    ensures
        cmds_view(r.0@) == parsed_cmds(strings_view(lines@)),
        r.1@ == joined(prelude_lines(strings_view(lines@))),
{
    let n = lines.len();
    let ghost sv: Seq<Seq<char>> = strings_view(lines@);
    let mut commands: Vec<Cmd> = Vec::new();
    let mut other: Vec<char> = Vec::new();
    let mut got_any = false;
    let mut i: usize = 0;
    proof {
        assert(sv.take(0) =~= Seq::<Seq<char>>::empty());
        assert(cmds_view(commands@) =~= parsed_cmds(sv.take(0)));
        assert(other@ =~= joined(prelude_lines(sv.take(0))));
    }
    while i < n
        invariant
            i <= n == lines@.len(),
            sv == strings_view(lines@),
            cmds_view(commands@) == parsed_cmds(sv.take(i as int)),
            other@ == joined(prelude_lines(sv.take(i as int))),
            got_any == (prelude_lines(sv.take(i as int)).len() > 0),
        decreases n - i,
    {
        let line: &String = &lines[i];
        let ghost pre_other = other@;
        proof {
            assert(sv.take(i + 1) =~= sv.take(i as int).push(sv[i as int]));
            assert(sv[i as int] == lines@[i as int]@);
            lemma_parsed_cmds_push(sv.take(i as int), sv[i as int]);
            lemma_joined_push(prelude_lines(sv.take(i as int)), sv[i as int]);
        }
        match Cmd::parse(line.as_str()) {
            Ok(cmd) => {
                commands.push(cmd);
                proof {
                    assert(cmds_view(commands@) =~= parsed_cmds(sv.take(i + 1)));
                }
            },
            Err(_) => {
                if got_any {
                    other.push('\n');
                }
                let mut lc = str_chars(line.as_str());
                other.append(&mut lc);
                got_any = true;
                proof {
                    if prelude_lines(sv.take(i as int)).len() > 0 {
                        assert(other@ =~= pre_other + seq!['\n'] + sv[i as int]);
                    } else {
                        assert(other@ =~= sv[i as int]);
                    }
                    assert(prelude_lines(sv.take(i + 1)) =~= prelude_lines(
                        sv.take(i as int),
                    ).push(sv[i as int]));
                    lemma_joined_push(prelude_lines(sv.take(i as int)), sv[i as int]);
                }
            },
        }
        i += 1;
    }
    proof {
        assert(sv.take(n as int) =~= sv);
    }
    let pre_script = chars_string(&other);
    (commands, pre_script)
}

fn scan_line(chars: &Vec<char>, from: usize) -> (r: usize)
    requires
        from <= chars@.len(),
    ensures
        from <= r <= chars@.len(),
        r as int == line_run_end(chars@, from as int),
{
    let n = chars.len();
    let mut i = from;
    loop
        invariant_except_break
            from <= i <= n,
            n == chars@.len(),
            line_run_end(chars@, from as int) == line_run_end(chars@, i as int),
        ensures
            from <= i <= n,
            n == chars@.len(),
            i as int == line_run_end(chars@, from as int),
        decreases n - i,
    {
        if i >= n {
            break;
        }
        if chars[i] == '\n' {
            break;
        }
        i += 1;
    }
    i
}

fn split_space_tokens(region: &Vec<char>) -> (r: Vec<String>)
    ensures
        strings_view(r@) == split_acc(region@, 0, Seq::empty()),
{
    let n = region.len();
    let mut out: Vec<String> = Vec::new();
    let mut cur: Vec<char> = Vec::new();
    let mut i: usize = 0;
    proof {
        assert(strings_view(out@) =~= Seq::<Seq<char>>::empty());
    }
    while i < n
        invariant
            i <= n == region@.len(),
            split_acc(region@, 0, Seq::empty()) == strings_view(out@) + split_acc(
                region@,
                i as int,
                cur@,
            ),
        decreases n - i,
    {
        let c = region[i];
        let ghost pre_out = out@;
        let ghost pre_cur = cur@;
        proof {
            assert(c == region@[i as int]);
        }
        if c == ' ' {
            if cur.len() > 0 {
                let tok = chars_string(&cur);
                out.push(tok);
                cur = Vec::new();
                proof {
                    assert(cur@ =~= Seq::<char>::empty());
                    assert(split_acc(region@, i as int, pre_cur) == seq![pre_cur] + split_acc(
                        region@,
                        i + 1,
                        Seq::empty(),
                    ));
                    assert(strings_view(out@) =~~= strings_view(pre_out).push(pre_cur));
                    assert(strings_view(pre_out) + (seq![pre_cur] + split_acc(
                        region@,
                        i + 1,
                        Seq::empty(),
                    )) =~~= strings_view(out@) + split_acc(region@, i + 1, Seq::empty()));
                }
            } else {
                proof {
                    assert(pre_cur =~= Seq::<char>::empty());
                    assert(split_acc(region@, i as int, pre_cur) == Seq::<Seq<char>>::empty()
                        + split_acc(region@, i + 1, Seq::empty()));
                    assert(strings_view(pre_out) + (Seq::<Seq<char>>::empty() + split_acc(
                        region@,
                        i + 1,
                        Seq::empty(),
                    )) =~~= strings_view(out@) + split_acc(region@, i + 1, Seq::empty()));
                }
            }
        } else {
            cur.push(c);
            proof {
                assert(cur@ == pre_cur.push(region@[i as int]));
                assert(split_acc(region@, i as int, pre_cur) == split_acc(
                    region@,
                    i + 1,
                    pre_cur.push(region@[i as int]),
                ));
            }
        }
        i += 1;
    }
    if cur.len() > 0 {
        let ghost pre_out = out@;
        let tok = chars_string(&cur);
        out.push(tok);
        proof {
            assert(strings_view(out@) =~= strings_view(pre_out).push(cur@));
            assert(strings_view(pre_out) + seq![cur@] =~= strings_view(out@));
        }
    } else {
        proof {
            assert(strings_view(out@) + Seq::<Seq<char>>::empty() =~= strings_view(out@));
        }
    }
    out
}

/// The interpreter tokens of a `#!` directive heading the trimmed text.
fn shebang_tokens(text: &str) -> (r: Option<Vec<String>>)
    ensures
        match r {
            Some(v) => shebang_args(text@) == Some(strings_view(v@)),
            None => shebang_args(text@) is None,
        },
{
    let chars = str_chars(text);
    let n = chars.len();
    let a = scan_ws(&chars, 0);
    let m = trim_end_index(&chars, 0, n);
    proof {
        assert(chars@.subrange(0, n as int) =~= chars@);
        assert(trim_end_spec(chars@).len() == m as int);
    }
    if m > a && m - a >= 2 && chars[a] == '#' && chars[a + 1] == '!' {
        let e = scan_line(&chars, a + 2);
        let x = if e < m {
            e
        } else {
            m
        };
        let region = sub_chars(&chars, a + 2, x);
        let tokens = split_space_tokens(&region);
        Some(tokens)
    } else {
        None
    }
}

fn contains_usize(v: &Vec<usize>, x: usize) -> (r: bool)
    ensures
        r == v@.contains(x),
{
    let n = v.len();
    let mut i: usize = 0;
    while i < n
        invariant
            i <= n == v@.len(),
            forall|k: int| 0 <= k < i ==> v@[k] != x,
        decreases n - i,
    {
        if v[i] == x {
            return true;
        }
        i += 1;
    }
    proof {
        assert(!v@.contains(x));
    }
    false
}

/// Feed the characters of `sequence`; reports whether the final `put`
/// returned a result list containing `id`.
pub fn sequence_is_reachable(sequence: &str, automata: &mut SequenceAutomata, id: usize) -> (r:
    bool)
    requires
        old(automata)@.wf(),
    ensures
        final(automata)@ == run(old(automata)@, char_instrs(sequence@)),
        final(automata)@.wf(),
        r == ({
            let out = last_output(old(automata)@, sequence@);
            out is Some && out->Some_0.contains(id)
        }),
{
    let ghost v0 = automata@;
    let ghost instrs = char_instrs(sequence@);
    let len = sequence.unicode_len();
    let mut latest: Option<Vec<usize>> = None;
    let mut i: usize = 0;
    proof {
        lemma_char_instrs(sequence@);
        assert(instrs.take(0) =~= Seq::<AutomataInstruction>::empty());
    }
    while i < len
        invariant
            i <= len == sequence@.len(),
            instrs == char_instrs(sequence@),
            instrs.len() == sequence@.len(),
            automata@.wf(),
            automata@ == run(v0, instrs.take(i as int)),
            i > 0 ==> crate::sequence_automata::results_view(latest) == run_outputs(
                v0,
                instrs.take(i as int),
            ).last(),
            i == 0 ==> latest is None,
        decreases len - i,
    {
        let c = sequence.get_char(i);
        proof {
            lemma_char_instrs(sequence@);
            assert(instrs[i as int] == AutomataInstruction::Char(sequence@[i as int]));
            assert(instrs.take(i + 1) =~= instrs.take(i as int).push(instrs[i as int]));
            lemma_run_push(v0, instrs.take(i as int), instrs[i as int]);
        }
        latest = automata.put(AutomataInstruction::Char(c));
        i += 1;
    }
    proof {
        assert(instrs.take(len as int) =~= instrs);
    }
    match latest {
        Some(res) => contains_usize(&res, id),
        None => false,
    }
}

/// The sequences whose rules can never fire, in rule order: each rule's
/// sequence is replayed from a reset automaton and must report its own ID.
pub fn get_unreachable_sequences(sequences: &[&str]) -> (r: Vec<String>)
    ensures
        strings_view(r@) == unreachable_from(str_views(sequences@), 0),
{
    let ghost seqs = str_views(sequences@);
    let mut automata = SequenceAutomata::new(sequences);
    let n = sequences.len();
    let mut out: Vec<String> = Vec::new();
    let mut i: usize = 0;
    proof {
        assert(strings_view(out@) + unreachable_from(seqs, 0) =~= unreachable_from(seqs, 0));
    }
    while i < n
        invariant
            i <= n == sequences@.len(),
            seqs == str_views(sequences@),
            automata@.wf(),
            automata@.nodes == build_nodes(seqs),
            unreachable_from(seqs, 0) == strings_view(out@) + unreachable_from(seqs, i as int),
        decreases n - i,
    {
        let _ = automata.put(AutomataInstruction::Reset);
        proof {
            assert(automata@ == initial_state(seqs));
        }
        let seq_i: &str = sequences[i];
        let ghost pre_out = out@;
        let reachable = sequence_is_reachable(seq_i, &mut automata, i);
        proof {
            lemma_run_nodes(initial_state(seqs), char_instrs(seq_i@));
            assert(seq_i@ == seqs[i as int]);
            assert(reachable == rule_reachable(seqs, i as int));
        }
        if !reachable {
            let owned: String = seq_i.to_owned();
            out.push(owned);
            proof {
                assert(strings_view(out@) =~= strings_view(pre_out).push(seqs[i as int]));
                assert(strings_view(pre_out) + (seq![seqs[i as int]] + unreachable_from(
                    seqs,
                    i + 1,
                )) =~= strings_view(out@) + unreachable_from(seqs, i + 1));
            }
        } else {
            proof {
                assert(strings_view(pre_out) + (Seq::<Seq<char>>::empty() + unreachable_from(
                    seqs,
                    i + 1,
                )) =~= strings_view(out@) + unreachable_from(seqs, i + 1));
            }
        }
        i += 1;
    }
    proof {
        assert(strings_view(out@) + Seq::<Seq<char>>::empty() =~= strings_view(out@));
    }
    out
}

fn pluck_sequence<'a>(commands: &'a Vec<Cmd>) -> (r: Vec<&'a str>)
    ensures
        str_views(r@) == firsts(cmds_view(commands@)),
{
    let n = commands.len();
    let mut out: Vec<&str> = Vec::new();
    let mut i: usize = 0;
    proof {
        assert(str_views(out@) =~= firsts(cmds_view(commands@)).take(0));
    }
    while i < n
        invariant
            i <= n == commands@.len(),
            str_views(out@) == firsts(cmds_view(commands@)).take(i as int),
        decreases n - i,
    {
        let ghost pre = out@;
        out.push(commands[i].sequence.as_str());
        proof {
            assert(str_views(out@) =~= str_views(pre).push(commands@[i as int].sequence@));
            assert(firsts(cmds_view(commands@)).take(i + 1) =~= firsts(
                cmds_view(commands@),
            ).take(i as int).push(commands@[i as int].sequence@));
        }
        i += 1;
    }
    proof {
        assert(firsts(cmds_view(commands@)).take(n as int) =~= firsts(cmds_view(commands@)));
    }
    out
}

/// The compiled configuration.
pub struct Configuration {
    pub interpreter: Vec<String>,
    pub commands: Vec<Cmd>,
    pub unreachable_sequences: Vec<String>,
    pub pre_script: String,
}

impl Configuration {
    /// Compile the lines of the configuration file.
    pub fn from_lines(lines: &[String]) -> (r: Self)
        ensures
            cmds_view(r.commands@) == parsed_cmds(strings_view(lines@)),
            r.pre_script@ == joined(prelude_lines(strings_view(lines@))),
            strings_view(r.unreachable_sequences@) == unreachable_from(
                firsts(parsed_cmds(strings_view(lines@))),
                0,
            ),
            strings_view(r.interpreter@) == (match shebang_args(r.pre_script@) {
                Some(args) => args,
                None => seq!["/bin/sh"@],
            }),
    {
        let (commands, pre_script) = parse_lines(lines);
        let sequences = pluck_sequence(&commands);
        let unreachable_sequences = get_unreachable_sequences(sequences.as_slice());
        let interpreter = match shebang_tokens(pre_script.as_str()) {
            Some(args) => args,
            None => {
                let mut d: Vec<String> = Vec::new();
                d.push(String::from_str("/bin/sh"));
                proof {
                    assert(strings_view(d@) =~= seq!["/bin/sh"@]);
                }
                d
            },
        };
        Self { unreachable_sequences, commands, interpreter, pre_script }
    }

    /// The sequence of every installed rule, in rule order.
    pub fn get_sequences<'a>(&'a self) -> (r: Vec<&'a str>)
        ensures
            str_views(r@) == firsts(cmds_view(self.commands@)),
    {
        pluck_sequence(&self.commands)
    }
}

} // verus!

