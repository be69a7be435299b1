//! What holds of the combinators and of the searches, for all trees,
//! nodes and environments.

use vstd::prelude::*;
use crate::tree::{TreeView, wf_tree};
use crate::meta_var::EnvView;
use crate::pattern::{Pattern, pattern_matches, pattern_root};
use crate::parse::parse;
use crate::rule::{
    Matcher, PositiveMatcher, And, Or, Not, Inside, NotInside, ancestor_walk, find_all, matched,
    level, levels, level_order, fresh,
};

verus! {

/// The matcher leaves the environment as it was wherever it fails.
pub open spec fn fails_cleanly<M: Matcher>(m: M) -> bool {
    forall|t: TreeView, n: usize, env: EnvView| #[trigger] m.matches(t, n, env).0 is None ==> m.matches(t, n, env).1 == env
}

/// A template fails without touching the environment.
pub proof fn lemma_pattern_fails_cleanly(p: Pattern)
    ensures
        fails_cleanly(p),
{
}

/// Template text fails without touching the environment.
pub proof fn lemma_text_fails_cleanly(s: &str)
    ensures
        fails_cleanly(s),
{
}

/// A disjunction matches a node exactly where its first matcher does, or
/// else its second does under the environment the first left; the first
/// is tried first and, where it matches, decides.
pub proof fn lemma_or<P1: PositiveMatcher, P2: PositiveMatcher>(o: Or<P1, P2>, t: TreeView, n: usize, env: EnvView)
    ensures
        o.matches(t, n, env).0 is Some <==> (o.first().matches(t, n, env).0 is Some || o.second().matches(
            t,
            n,
            o.first().matches(t, n, env).1,
        ).0 is Some),
        o.first().matches(t, n, env).0 is Some ==> o.matches(t, n, env) == o.first().matches(t, n, env),
{
}

/// Where the first alternative fails without touching the environment, a
/// disjunction matches exactly where either alternative matches.
pub proof fn lemma_or_inclusive<P1: PositiveMatcher, P2: PositiveMatcher>(o: Or<P1, P2>, t: TreeView, n: usize, env: EnvView)
    requires
        fails_cleanly(o.first()),
    ensures
        o.matches(t, n, env).0 is Some <==> (o.first().matches(t, n, env).0 is Some || o.second().matches(t, n, env).0 is Some),
{
    if o.first().matches(t, n, env).0 is None {
        assert(o.first().matches(t, n, env).1 == env);
    }
}

/// A conjunction matches exactly where its first matcher matches and its
/// second matches the node the first returned, under the bindings the
/// first made.
pub proof fn lemma_and<P1: Matcher, P2: Matcher>(a: And<P1, P2>, t: TreeView, n: usize, env: EnvView)
    ensures
        a.matches(t, n, env).0 is Some <==> (a.first().matches(t, n, env).0 is Some && a.second().matches(
            t,
            a.first().matches(t, n, env).0->0,
            a.first().matches(t, n, env).1,
        ).0 is Some),
{
}

/// A negation matches a node exactly where its inner matcher fails at that
/// very node, and then at that node.
pub proof fn lemma_not<P: PositiveMatcher>(x: Not<P>, t: TreeView, n: usize, env: EnvView)
    ensures
        x.matches(t, n, env).0 is Some <==> x.inner().matches(t, n, env).0 is None,
        x.matches(t, n, env).0 is Some ==> x.matches(t, n, env).0 == Some(n),
{
}

/// The proper ancestors of `n`, nearest first, up to the root.
pub open spec fn ancestors(t: TreeView, n: usize) -> Seq<usize>
    decreases n,
    when wf_tree(t) && n < t.len()
{
    match t[n as int].parent {
        None => Seq::empty(),
        Some(q) => seq![q] + ancestors(t, q),
    }
}

proof fn lemma_walk(p: (TreeView, usize), t: TreeView, n: usize, env: EnvView)
    requires
        wf_tree(t),
        n < t.len(),
    ensures
        ancestor_walk(p, t, n, env).0 <==> exists|i: int|
            0 <= i < ancestors(t, n).len() && pattern_matches(p, t, #[trigger] ancestors(t, n)[i], env) is Some,
    decreases n,
{
    match t[n as int].parent {
        None => {},
        Some(q) => {
            lemma_walk(p, t, q, env);
            let a = ancestors(t, n);
            assert(a[0] == q);
            if pattern_matches(p, t, q, env) is None && ancestor_walk(p, t, n, env).0 {
                let i = choose|i: int| 0 <= i < ancestors(t, q).len() && pattern_matches(p, t, #[trigger] ancestors(t, q)[i], env) is Some;
                assert(a[i + 1] == ancestors(t, q)[i]);
            }
            if !ancestor_walk(p, t, n, env).0 {
                assert forall|i: int| 0 <= i < a.len() implies !(pattern_matches(p, t, #[trigger] a[i], env) is Some) by {
                    if i > 0 {
                        assert(a[i] == ancestors(t, q)[i - 1]);
                    }
                }
            }
        },
    }
}

/// `Inside` matches a node exactly where some ancestor matches its
/// template; `NotInside` over the same template matches exactly where
/// `Inside` does not, and leaves the same environment.
pub proof fn lemma_inside(x: Inside, y: NotInside, t: TreeView, n: usize, env: EnvView)
    requires
        wf_tree(t),
        n < t.len(),
        x.outer() == y.outer(),
    ensures
        x.matches(t, n, env).0 is Some <==> exists|i: int|
            0 <= i < ancestors(t, n).len() && x.outer().matches(t, #[trigger] ancestors(t, n)[i], env).0 is Some,
        y.matches(t, n, env).0 is Some <==> !(x.matches(t, n, env).0 is Some),
        y.matches(t, n, env).1 == x.matches(t, n, env).1,
{
    lemma_walk(x.outer().view(), t, n, env);
}

/// The matches of candidates `s`, in order, are some of the candidates,
/// each matching when tried alone with a fresh environment.
proof fn lemma_matched_subseq<M: Matcher>(m: &M, t: TreeView, s: Seq<usize>) -> (idx: Seq<int>)
    requires
        wf_tree(t),
        forall|k: int| 0 <= k < s.len() ==> #[trigger] s[k] < t.len(),
    ensures
        idx.len() == matched(m, t, s).len(),
        forall|i: int, j: int| 0 <= i < j < idx.len() ==> idx[i] < idx[j],
        forall|i: int|
            0 <= i < idx.len() ==> 0 <= #[trigger] idx[i] < s.len() && matched(m, t, s)[i] == s[idx[i]]
                && m.matches(t, s[idx[i]], fresh()).0 == Some(s[idx[i]]),
    decreases s.len(),
{
    if s.len() == 0 {
        Seq::empty()
    } else {
        let rest = lemma_matched_subseq(m, t, s.drop_last());
        m.lemma_match_point(t, s.last(), fresh());
        if m.matches(t, s.last(), fresh()).0 is Some {
            rest.push(s.len() - 1)
        } else {
            rest
        }
    }
}

proof fn lemma_levels_bounds(t: TreeView, root: usize, k: nat)
    requires
        wf_tree(t),
        root < t.len(),
    ensures
        forall|i: int| 0 <= i < levels(t, root, k).len() ==> #[trigger] levels(t, root, k)[i] < t.len(),
    decreases k,
{
    if k > 0 {
        let k1 = (k - 1) as nat;
        lemma_levels_bounds(t, root, k1);
        crate::rule::lemma_level_bounds(t, root, k1);
        let a = levels(t, root, k1);
        assert forall|i: int| 0 <= i < levels(t, root, k).len() implies #[trigger] levels(t, root, k)[i] < t.len() by {
            if i >= a.len() {
                assert(levels(t, root, k)[i] == level(t, root, k1)[i - a.len()]);
            }
        }
    }
}

/// `r` is `s` with some elements left out: `idx` gives the place in `s` of
/// each element of `r`.
pub open spec fn embeds(idx: Seq<int>, r: Seq<usize>, s: Seq<usize>) -> bool {
    &&& idx.len() == r.len()
    &&& forall|i: int, j: int| 0 <= i < j < idx.len() ==> idx[i] < idx[j]
    &&& forall|i: int| 0 <= i < idx.len() ==> 0 <= #[trigger] idx[i] < s.len() && r[i] == s[idx[i]]
}

/// What the level-order search returns is a subsequence of the tree's nodes
/// in level order, each of which matches when tried alone with a fresh
/// environment.
pub proof fn lemma_find_all_in_level_order<M: Matcher>(m: &M, t: TreeView, root: usize)
    requires
        wf_tree(t),
        root < t.len(),
    ensures
        exists|idx: Seq<int>| #[trigger] embeds(idx, find_all(m, t, root), level_order(t, root)),
        forall|i: int|
            0 <= i < find_all(m, t, root).len() ==> m.matches(t, #[trigger] find_all(m, t, root)[i], fresh()).0
                == Some(find_all(m, t, root)[i]),
{
    lemma_levels_bounds(t, root, t.len());
    let idx = lemma_matched_subseq(m, t, level_order(t, root));
    assert(embeds(idx, find_all(m, t, root), level_order(t, root)));
    assert forall|i: int| 0 <= i < find_all(m, t, root).len() implies m.matches(t, #[trigger] find_all(m, t, root)[i], fresh()).0
        == Some(find_all(m, t, root)[i]) by {
        assert(0 <= idx[i]);
    }
}

/// The level-order search depends on the rule and the tree alone: run again
/// on the same tree it gives the same sequence.
pub proof fn lemma_find_all_repeatable<M: Matcher>(m: &M, t1: TreeView, t2: TreeView, root: usize)
    requires
        t1 == t2,
    ensures
        find_all(m, t1, root) == find_all(m, t2, root),
{
}

/// How many ancestors a node has.
pub open spec fn depth(t: TreeView, n: usize) -> nat {
    ancestors(t, n).len()
}

proof fn lemma_expand_depth(t: TreeView, s: Seq<usize>, d: nat)
    requires
        wf_tree(t),
        forall|i: int| 0 <= i < s.len() ==> #[trigger] s[i] < t.len() && depth(t, s[i]) == d,
    ensures
        forall|i: int| 0 <= i < crate::rule::expand(t, s).len() ==> #[trigger] crate::rule::expand(t, s)[i] < t.len()
            && depth(t, crate::rule::expand(t, s)[i]) == d + 1,
    decreases s.len(),
{
    if s.len() > 0 {
        lemma_expand_depth(t, s.drop_last(), d);
        let a = crate::rule::expand(t, s.drop_last());
        let x = s.last();
        let c = t[x as int].children;
        assert(s[s.len() - 1] == x);
        assert forall|i: int| 0 <= i < crate::rule::expand(t, s).len() implies #[trigger] crate::rule::expand(t, s)[i]
            < t.len() && depth(t, crate::rule::expand(t, s)[i]) == d + 1 by {
            if i >= a.len() {
                let y = c[i - a.len()];
                assert(crate::rule::expand(t, s)[i] == y);
                assert(t[y as int].parent == Some(x));
                assert(ancestors(t, y) == seq![x] + ancestors(t, x));
            } else {
                assert(crate::rule::expand(t, s)[i] == a[i]);
            }
        }
    }
}

proof fn lemma_level_depth(t: TreeView, root: usize, k: nat)
    requires
        wf_tree(t),
        root < t.len(),
    ensures
        forall|i: int| 0 <= i < level(t, root, k).len() ==> #[trigger] level(t, root, k)[i] < t.len()
            && depth(t, level(t, root, k)[i]) == depth(t, root) + k,
    decreases k,
{
    if k > 0 {
        lemma_level_depth(t, root, (k - 1) as nat);
        lemma_expand_depth(t, level(t, root, (k - 1) as nat), (depth(t, root) + k - 1) as nat);
    }
}

proof fn lemma_levels_sorted(t: TreeView, root: usize, k: nat)
    requires
        wf_tree(t),
        root < t.len(),
    ensures
        forall|i: int| 0 <= i < levels(t, root, k).len() ==> depth(t, #[trigger] levels(t, root, k)[i]) < depth(t, root) + k,
        forall|i: int, j: int|
            0 <= i < j < levels(t, root, k).len() ==> depth(t, #[trigger] levels(t, root, k)[i]) <= depth(
                t,
                #[trigger] levels(t, root, k)[j],
            ),
    decreases k,
{
    if k > 0 {
        let k1 = (k - 1) as nat;
        lemma_levels_sorted(t, root, k1);
        lemma_level_depth(t, root, k1);
        let a = levels(t, root, k1);
        let l = levels(t, root, k);
        assert forall|i: int| 0 <= i < l.len() implies depth(t, #[trigger] l[i]) < depth(t, root) + k by {
            if i >= a.len() {
                assert(l[i] == level(t, root, k1)[i - a.len()]);
            } else {
                assert(l[i] == a[i]);
            }
        }
        assert forall|i: int, j: int| 0 <= i < j < l.len() implies depth(t, #[trigger] l[i]) <= depth(t, #[trigger] l[j]) by {
            if j >= a.len() {
                assert(l[j] == level(t, root, k1)[j - a.len()]);
                if i >= a.len() {
                    assert(l[i] == level(t, root, k1)[i - a.len()]);
                } else {
                    assert(l[i] == a[i]);
                }
            } else {
                assert(l[i] == a[i]);
                assert(l[j] == a[j]);
            }
        }
    }
}

/// Level order puts shallower nodes first: along it, the number of
/// ancestors never decreases.
pub proof fn lemma_level_order_shallow_first(t: TreeView, root: usize)
    requires
        wf_tree(t),
        root < t.len(),
    ensures
        forall|i: int, j: int|
            0 <= i < j < level_order(t, root).len() ==> depth(t, #[trigger] level_order(t, root)[i]) <= depth(
                t,
                #[trigger] level_order(t, root)[j],
            ),
{
    lemma_levels_sorted(t, root, t.len());
}

} // verus!
