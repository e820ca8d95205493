//! The language-preference parser: turns a raw preference header into an
//! ordered list of lowercase language tags, most preferred first, always
//! ending in the fixed default tag.
//!
//! Weights order the entries textually, not numerically: each weighted
//! entry is keyed by its lowercased weight expression, each unweighted
//! entry by a synthesized key `q=1.` plus a zero-padded counter, and the
//! tags are collected in ascending key order and then reversed.

use vstd::prelude::*;
use vstd::string::{StrSliceExecFns, StringExecFns};

use crate::default_tag;
use crate::text::{
    contains_char, lemma_split_seq_two, lex_lt, lower_seq, pad2, pad2_exec, split_seq, split_str,
    str_eq, str_lt, to_lower,
};

verus! {

/// The synthesized key of the n-th unweighted entry: sorts after every
/// explicit `q=` weight, and in header order among unweighted entries.
pub open spec fn synth_key(n: nat) -> Seq<char> {
    seq!['q', '=', '1', '.'].add(pad2(n))
}

/// Insertion into a key-sorted entry list; an equal key replaces the
/// earlier tag.
pub open spec fn tree_insert(
    t: Seq<(Seq<char>, Seq<char>)>,
    k: Seq<char>,
    v: Seq<char>,
) -> Seq<(Seq<char>, Seq<char>)>
    decreases t.len(),
{
    if t.len() == 0 {
        seq![(k, v)]
    } else if k == t[0].0 {
        seq![(k, v)].add(t.drop_first())
    } else if lex_lt(k, t[0].0) {
        seq![(k, v)].add(t)
    } else {
        seq![t[0]].add(tree_insert(t.drop_first(), k, v))
    }
}

/// One header entry: with a weight separator, the lowercased weight
/// expression keys the lowercased tag; without one, a synthesized key
/// from the running counter keys it and the counter advances.
pub open spec fn entry_step(
    t: Seq<(Seq<char>, Seq<char>)>,
    cnt: nat,
    e: Seq<char>,
) -> (Seq<(Seq<char>, Seq<char>)>, nat) {
    if e.contains(';') {
        let parts = split_seq(e, ';');
        (tree_insert(t, lower_seq(parts[1]), lower_seq(parts[0])), cnt)
    } else {
        (tree_insert(t, synth_key(cnt), lower_seq(e)), cnt + 1)
    }
}

/// All header entries folded into the tree, in header order.
pub open spec fn entries_fold(
    entries: Seq<Seq<char>>,
    t: Seq<(Seq<char>, Seq<char>)>,
    cnt: nat,
) -> Seq<(Seq<char>, Seq<char>)>
    decreases entries.len(),
{
    if entries.len() == 0 {
        t
    } else {
        let step = entry_step(t, cnt, entries[0]);
        entries_fold(entries.drop_first(), step.0, step.1)
    }
}

/// The tags of the tree, in ascending key order.
pub open spec fn tree_vals(t: Seq<(Seq<char>, Seq<char>)>) -> Seq<Seq<char>> {
    t.map_values(|p: (Seq<char>, Seq<char>)| p.1)
}

/// What the parser returns for a header: the keyed tags in ascending key
/// order, reversed, with the default tag appended unconditionally.
pub open spec fn parse_prefs(h: Seq<char>) -> Seq<Seq<char>> {
    tree_vals(entries_fold(split_seq(h, ','), Seq::empty(), 0)).reverse().push(default_tag())
}

/// Insertion skips a prefix whose keys neither equal nor exceed the new key.
proof fn lemma_tree_insert_skip(t: Seq<(Seq<char>, Seq<char>)>, k: Seq<char>, v: Seq<char>, i: int)
    requires
        0 <= i <= t.len(),
        forall|j: int| 0 <= j < i ==> (#[trigger] t[j].0) != k && !lex_lt(k, t[j].0),
    ensures
        tree_insert(t, k, v) =~~= t.take(i).add(tree_insert(t.skip(i), k, v)),
    decreases i,
{
    if i == 0 {
        assert(t.skip(0) =~~= t);
    } else {
        assert(t[0].0 != k && !lex_lt(k, t[0].0));
        let rest = t.drop_first();
        assert(forall|j: int| 0 <= j < i - 1 ==> (#[trigger] rest[j].0) == t[j + 1].0);
        lemma_tree_insert_skip(rest, k, v, i - 1);
        assert(rest.take(i - 1) =~~= t.take(i).drop_first());
        assert(rest.skip(i - 1) =~~= t.skip(i));
        assert(tree_insert(t, k, v) =~~= seq![t[0]].add(rest.take(i - 1).add(
            tree_insert(rest.skip(i - 1), k, v),
        )));
    }
}

/// Executable insertion into the key-sorted entry list.
fn tree_insert_exec(t: &mut Vec<(String, String)>, k: String, v: String)
    ensures
        final(t).deep_view() == tree_insert(old(t).deep_view(), k@, v@),
{
    let ghost prev = t.deep_view();
    let n = t.len();
    let mut i: usize = 0;
    let mut outcome: u8 = 2;
    while i < n && outcome == 2
        invariant
            n == t.len(),
            i <= n,
            t.deep_view() == prev,
            forall|j: int| 0 <= j < i ==> (#[trigger] prev[j].0) != k@ && !lex_lt(k@, prev[j].0),
            outcome == 0 ==> i < n && prev[i as int].0 == k@,
            outcome == 1 ==> i < n && lex_lt(k@, prev[i as int].0) && prev[i as int].0 != k@,
            outcome == 0 || outcome == 1 || outcome == 2,
        decreases n - i + (if outcome == 2 { 1int } else { 0int }),
    {
        if str_eq(t[i].0.as_str(), k.as_str()) {
            outcome = 0;
        } else if str_lt(k.as_str(), t[i].0.as_str()) {
            outcome = 1;
        } else {
            i += 1;
        }
    }
    proof {
        lemma_tree_insert_skip(prev, k@, v@, i as int);
    }
    if outcome == 0 {
        t.remove(i);
        t.insert(i, (k, v));
        proof {
            assert(tree_insert(prev.skip(i as int), k@, v@) =~~= seq![(k@, v@)].add(
                prev.skip(i + 1),
            ));
            assert(t.deep_view() =~~= prev.take(i as int).add(
                seq![(k@, v@)].add(prev.skip(i + 1)),
            ));
        }
    } else if outcome == 1 {
        t.insert(i, (k, v));
        proof {
            assert(prev.skip(i as int)[0] == prev[i as int]);
            assert(tree_insert(prev.skip(i as int), k@, v@) =~~= seq![(k@, v@)].add(
                prev.skip(i as int),
            ));
            assert(t.deep_view() =~~= prev.take(i as int).add(
                seq![(k@, v@)].add(prev.skip(i as int)),
            ));
        }
    } else {
        t.push((k, v));
        proof {
            assert(prev.skip(n as int).len() == 0);
            assert(tree_insert(prev.skip(n as int), k@, v@) =~~= seq![(k@, v@)]);
            assert(t.deep_view() =~~= prev.take(n as int).add(seq![(k@, v@)]));
        }
    }
}

/// Executable synthesized key for the n-th unweighted entry.
fn synth_key_exec(n: usize) -> (r: String)
    ensures
        r@ == synth_key(n as nat),
{
    let mut r = String::from_str("q=1.");
    proof {
        reveal_strlit("q=1.");
        assert(r@ =~= seq!['q', '=', '1', '.']);
    }
    let p = pad2_exec(n);
    r.append(p.as_str());
    proof {
        assert(r@ =~= synth_key(n as nat));
    }
    r
}

/// Parses a language-preference header into the ranked list of lowercase
/// tags, most preferred first. The list is never empty and always ends in
/// the default tag, which is appended even when it already occurs.
pub fn preferred_language(alheader: String) -> (r: Vec<String>)
    ensures
        r.deep_view() == parse_prefs(alheader@),
        r.deep_view().len() >= 1,
        r.deep_view().last() == default_tag(),
{
    let entries = split_str(alheader.as_str(), ',');
    let ghost entseq = entries.deep_view();
    let mut tree: Vec<(String, String)> = Vec::new();
    let mut counter: usize = 0;
    let mut idx: usize = 0;
    let n = entries.len();
    proof {
        assert(entseq.skip(0) =~~= entseq);
        assert(tree.deep_view() =~~= Seq::<(Seq<char>, Seq<char>)>::empty());
    }
    while idx < n
        invariant
            n == entries.len(),
            idx <= n,
            counter <= idx,
            entries.deep_view() == entseq,
            entries_fold(entseq, Seq::empty(), 0) == entries_fold(
                entseq.skip(idx as int),
                tree.deep_view(),
                counter as nat,
            ),
        decreases n - idx,
    {
        let ghost tail = entseq.skip(idx as int);
        let e: &String = &entries[idx];
        proof {
            assert(tail[0] == e@);
            assert(tail.drop_first() =~~= entseq.skip(idx + 1));
        }
        if contains_char(e.as_str(), ';') {
            let parts = split_str(e.as_str(), ';');
            proof {
                lemma_split_seq_two(e@, ';');
                assert(parts.deep_view().len() >= 2);
                assert(parts@.len() == parts.deep_view().len());
            }
            let lang = to_lower(parts[0].as_str());
            let pref = to_lower(parts[1].as_str());
            proof {
                assert(parts[0]@ == split_seq(e@, ';')[0]);
                assert(parts[1]@ == split_seq(e@, ';')[1]);
            }
            tree_insert_exec(&mut tree, pref, lang);
        } else {
            let key = synth_key_exec(counter);
            let low = to_lower(e.as_str());
            tree_insert_exec(&mut tree, key, low);
            counter += 1;
        }
        idx += 1;
    }
    proof {
        assert(entseq.skip(n as int).len() == 0);
    }
    let ghost treeseq = tree.deep_view();
    let mut r: Vec<String> = Vec::new();
    let mut j: usize = tree.len();
    proof {
        assert(r.deep_view() =~~= tree_vals(treeseq.skip(j as int)).reverse());
    }
    while j > 0
        invariant
            j <= tree.len(),
            tree.deep_view() == treeseq,
            r.deep_view() =~~= tree_vals(treeseq.skip(j as int)).reverse(),
        decreases j,
    {
        j -= 1;
        let ghost rprev = r.deep_view();
        let val = tree[j].1.clone();
        proof {
            assert(val@ == treeseq[j as int].1);
        }
        r.push(val);
        proof {
            assert(r.deep_view() =~~= rprev.push(treeseq[j as int].1));
            assert(r.deep_view() =~~= tree_vals(treeseq.skip(j as int)).reverse());
        }
    }
    proof {
        assert(treeseq.skip(0) =~~= treeseq);
    }
    let deflt = String::from_str("en");
    proof {
        reveal_strlit("en");
        assert(deflt@ =~= default_tag());
    }
    r.push(deflt);
    proof {
        assert(r.deep_view() =~~= parse_prefs(alheader@));
    }
    r
}

} // verus!
