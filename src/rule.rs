//! The matcher capability, its searches, the combinators, and the rule
//! builder that only ever finishes with a positive rule.
//!
//! A matcher is "positive" ([`PositiveMatcher`]) when it states an
//! affirmative condition that can stand alone as a rule. Negation is not
//! positive: the builder takes it only as a refinement of a positive term.

use vstd::prelude::*;
use crate::tree::{Node, TreeView, wf_tree};
use crate::meta_var::{MetaVarEnv, EnvView};
use crate::pattern::{Pattern, pattern_matches, pattern_root};
use crate::parse::parse;

verus! {

/// Every binding of `env` names a node of `t`.
pub open spec fn env_in(env: EnvView, t: TreeView) -> bool {
    forall|k: int| 0 <= k < env.len() ==> (#[trigger] env[k]).1 < t.len()
}

pub open spec fn opt_id(r: Option<Node>) -> Option<usize> {
    match r {
        Some(m) => Some(m.id()),
        None => None,
    }
}

pub open spec fn node_ids(v: Seq<Node>) -> Seq<usize> {
    v.map_values(|x: Node| x.id())
}

/// The empty environment.
pub open spec fn fresh() -> EnvView {
    Seq::empty()
}

/// Something that can test one node of a tree.
pub trait Matcher {
    /// Matching node `n` of `t` under `env`: the matched node, or none, and
    /// the environment after the attempt.
    spec fn matches(&self, t: TreeView, n: usize, env: EnvView) -> (Option<usize>, EnvView);

    /// What the matcher needs of itself to be run.
    spec fn well_formed(&self) -> bool;

    /// A match is always at the node that was tested.
    proof fn lemma_match_point(&self, t: TreeView, n: usize, env: EnvView)
        requires
            wf_tree(t),
            n < t.len(),
        ensures
            self.matches(t, n, env).0 matches Some(m) ==> m == n,
    ;

    /// Tests `node`, threading `env` through the attempt.
    fn match_node<'t>(&self, node: Node<'t>, env: &mut MetaVarEnv) -> (r: Option<Node<'t>>)
        requires
            self.well_formed(),
            node.wf(),
            env_in(old(env)@, node.tree()),
        ensures
            self.matches(node.tree(), node.id(), old(env)@) == (opt_id(r), final(env)@),
            r matches Some(m) ==> m.tree() == node.tree() && m.wf(),
            env_in(final(env)@, node.tree()),
    ;
}

/// The searches that a matcher gives: the first match in pre-order, and
/// every match in level order.
pub trait Search: Matcher {
    /// The first match in pre-order from `node`, with one environment for the
    /// whole search. Bindings left by a failed attempt at a node stay in
    /// place while its children are tried.
    fn find_node<'t>(&self, node: Node<'t>, env: &mut MetaVarEnv) -> (r: Option<Node<'t>>)
        requires
            self.well_formed(),
            node.wf(),
            env_in(old(env)@, node.tree()),
        ensures
            find_first(self, node.tree(), node.id(), old(env)@) == (opt_id(r), final(env)@),
            r matches Some(m) ==> m.tree() == node.tree() && m.wf(),
            env_in(final(env)@, node.tree()),
    {
        search_first(self, node, env)
    }

    /// Every match, in level order from `node`; each candidate is tested
    /// with a fresh environment.
    fn find_node_vec<'t>(&self, node: Node<'t>) -> (r: Vec<Node<'t>>)
        requires
            self.well_formed(),
            node.wf(),
        ensures
            node_ids(r@) == find_all(self, node.tree(), node.id()),
            forall|k: int| 0 <= k < r@.len() ==> (#[trigger] r@[k]).tree() == node.tree() && r@[k].wf(),
    {
        let ghost t = node.tree();
        let ghost root = node.id();
        let mut ret: Vec<Node<'t>> = Vec::new();
        let mut cur: Vec<Node<'t>> = Vec::new();
        cur.push(node);
        let ghost mut depth: nat = 0;
        proof {
            assert(node_ids(cur@) =~= level(t, root, 0));
            assert(node_ids(ret@) =~= matched(self, t, levels(t, root, 0)));
        }
        while cur.len() > 0
            invariant
                self.well_formed(),
                node.wf(),
                t == node.tree(),
                root == node.id(),
                node_ids(cur@) == level(t, root, depth),
                forall|k: int| 0 <= k < cur@.len() ==> (#[trigger] cur@[k]).tree() == t && cur@[k].wf(),
                node_ids(ret@) == matched(self, t, levels(t, root, depth)),
                forall|k: int| 0 <= k < ret@.len() ==> (#[trigger] ret@[k]).tree() == t && ret@[k].wf(),
                depth <= t.len(),
            decreases t.len() - depth,
        {
            proof {
                lemma_level_bounds(t, root, depth);
                assert(level(t, root, depth)[0] >= root + depth);
            }
            let ghost done = levels(t, root, depth);
            let mut next: Vec<Node<'t>> = Vec::new();
            let mut j: usize = 0;
            proof {
                assert(node_ids(cur@).take(0) =~= Seq::<usize>::empty());
                assert(done + node_ids(cur@).take(0) =~= done);
            }
            while j < cur.len()
                invariant
                    self.well_formed(),
                    t == node.tree(),
                    j <= cur@.len(),
                    forall|k: int| 0 <= k < cur@.len() ==> (#[trigger] cur@[k]).tree() == t && cur@[k].wf(),
                    node_ids(next@) == expand(t, node_ids(cur@).take(j as int)),
                    forall|k: int| 0 <= k < next@.len() ==> (#[trigger] next@[k]).tree() == t && next@[k].wf(),
                    node_ids(ret@) == matched(self, t, done + node_ids(cur@).take(j as int)),
                    forall|k: int| 0 <= k < ret@.len() ==> (#[trigger] ret@[k]).tree() == t && ret@[k].wf(),
                decreases cur@.len() - j,
            {
                let cand = cur[j];
                let ghost taken = node_ids(cur@).take(j as int);
                proof {
                    assert(node_ids(cur@).take(j as int + 1) =~= taken.push(cand.id()));
                    assert(done + taken.push(cand.id()) =~= (done + taken).push(cand.id()));
                    assert(taken.push(cand.id()).drop_last() =~= taken);
                    assert((done + taken).push(cand.id()).drop_last() =~= done + taken);
                }
                let kids = cand.children();
                let ghost before = next@;
                let mut q: usize = 0;
                while q < kids.len()
                    invariant
                        cand.wf(),
                        cand.tree() == t,
                        q <= kids@.len(),
                        next@.len() == before.len() + q,
                        forall|k: int| 0 <= k < before.len() ==> next@[k] == before[k],
                        forall|k: int| 0 <= k < q ==> next@[before.len() + k] == kids@[k],
                        forall|k: int| 0 <= k < next@.len() ==> (#[trigger] next@[k]).tree() == t && next@[k].wf(),
                        forall|k: int|
                            0 <= k < kids@.len() ==> (#[trigger] kids@[k]).tree() == t && kids@[k].id()
                                == t[cand.id() as int].children[k] && kids@[k].wf(),
                    decreases kids@.len() - q,
                {
                    next.push(kids[q]);
                    q = q + 1;
                }
                proof {
                    let c = t[cand.id() as int].children;
                    assert forall|k: int| 0 <= k < next@.len() implies #[trigger] node_ids(next@)[k] == (node_ids(before) + c)[k] by {
                        if k >= before.len() {
                            assert(next@[before.len() + (k - before.len())] == kids@[k - before.len()]);
                        }
                    }
                    assert(node_ids(next@) =~= node_ids(before) + c);
                }
                let mut env = MetaVarEnv::new();
                let found = self.match_node(cand, &mut env);
                if let Some(m) = found {
                    ret.push(m);
                    proof {
                        assert(node_ids(ret@) =~= node_ids(ret@).drop_last().push(m.id()));
                        assert(node_ids(ret@).drop_last() =~= node_ids(ret@.drop_last()));
                    }
                }
                j = j + 1;
            }
            proof {
                assert(node_ids(cur@).take(cur@.len() as int) =~= node_ids(cur@));
            }
            cur = next;
            proof {
                depth = depth + 1;
            }
        }
        proof {
            lemma_levels_rest(t, root, depth);
        }
        ret
    }
}

impl<M: Matcher + ?Sized> Search for M {
}

/// Pre-order search from `node` for the first node that `m` matches.
fn search_first<'t, M: Matcher + ?Sized>(m: &M, node: Node<'t>, env: &mut MetaVarEnv) -> (r: Option<Node<'t>>)
    requires
        m.well_formed(),
        node.wf(),
        env_in(old(env)@, node.tree()),
    ensures
        find_first(m, node.tree(), node.id(), old(env)@) == (opt_id(r), final(env)@),
        r matches Some(x) ==> x.tree() == node.tree() && x.wf(),
        env_in(final(env)@, node.tree()),
decreases node.tree().len() - node.id(),
{
    let ghost e0 = env@;
    let first = m.match_node(node, env);
    if first.is_some() {
        return first;
    }
    let kids = node.children();
    let ghost t = node.tree();
    let mut i: usize = 0;
    while i < kids.len()
        invariant
            m.well_formed(),
            node.wf(),
            t == node.tree(),
            kids@.len() == t[node.id() as int].children.len(),
            forall|k: int|
                0 <= k < kids@.len() ==> (#[trigger] kids@[k]).tree() == t && kids@[k].id()
                    == t[node.id() as int].children[k] && kids@[k].wf() && kids@[k].id()
                    > node.id(),
            i <= kids@.len(),
            e0 == old(env)@,
            find_first(m, t, node.id(), e0) == find_kids(m, t, node.id(), i as nat, env@),
            env_in(env@, t),
        decreases kids@.len() - i,
    {
        let ghost eb = env@;
        let kid = kids[i];
        let found = search_first(m, kid, env);
        proof {
            assert(kid.id() == t[node.id() as int].children[i as int]);
            assert(find_kids(m, t, node.id(), i as nat, eb) == {
                let (r, e1) = find_first(m, t, kid.id(), eb);
                if r is Some {
                    (r, e1)
                } else {
                    find_kids(m, t, node.id(), i as nat + 1, e1)
                }
            });
        }
        if found.is_some() {
            return found;
        }
        i = i + 1;
    }
    None
}

/// First match in pre-order from `n`: the node itself, then each child's
/// subtree in source order, with the environment threaded through.
pub open spec fn find_first<M: Matcher + ?Sized>(m: &M, t: TreeView, n: usize, env: EnvView) -> (
    Option<usize>,
    EnvView,
)
    decreases t.len() - n, 1nat, 0nat,
    when wf_tree(t) && n < t.len()
{
    let (r, e1) = m.matches(t, n, env);
    if r is Some {
        (r, e1)
    } else {
        find_kids(m, t, n, 0, e1)
    }
}

/// First match in the subtrees of the children of `n` from the `i`-th on.
pub open spec fn find_kids<M: Matcher + ?Sized>(m: &M, t: TreeView, n: usize, i: nat, env: EnvView) -> (
    Option<usize>,
    EnvView,
)
    decreases t.len() - n, 0nat, t[n as int].children.len() - i,
    when wf_tree(t) && n < t.len()
{
    if i >= t[n as int].children.len() {
        (None, env)
    } else {
        let (r, e1) = find_first(m, t, t[n as int].children[i as int], env);
        if r is Some {
            (r, e1)
        } else {
            find_kids(m, t, n, i + 1, e1)
        }
    }
}

/// The children of the nodes of `s`, in order.
pub open spec fn expand(t: TreeView, s: Seq<usize>) -> Seq<usize>
    decreases s.len(),
{
    if s.len() == 0 {
        Seq::empty()
    } else {
        expand(t, s.drop_last()) + t[s.last() as int].children
    }
}

/// The nodes at depth `k` below `root`, left to right.
pub open spec fn level(t: TreeView, root: usize, k: nat) -> Seq<usize>
    decreases k,
{
    if k == 0 {
        seq![root]
    } else {
        expand(t, level(t, root, (k - 1) as nat))
    }
}

/// The nodes of depth below `k`, shallower first.
pub open spec fn levels(t: TreeView, root: usize, k: nat) -> Seq<usize>
    decreases k,
{
    if k == 0 {
        Seq::empty()
    } else {
        levels(t, root, (k - 1) as nat) + level(t, root, (k - 1) as nat)
    }
}

/// The subtree of `root` in level order; no node lies deeper than `t.len()`.
pub open spec fn level_order(t: TreeView, root: usize) -> Seq<usize> {
    levels(t, root, t.len())
}

/// The matches of the candidates `s`, each tried with a fresh environment.
pub open spec fn matched<M: Matcher + ?Sized>(m: &M, t: TreeView, s: Seq<usize>) -> Seq<usize>
    decreases s.len(),
{
    if s.len() == 0 {
        Seq::empty()
    } else {
        let rest = matched(m, t, s.drop_last());
        match m.matches(t, s.last(), fresh()).0 {
            Some(x) => rest.push(x),
            None => rest,
        }
    }
}

/// Every match below and at `root`, in level order.
pub open spec fn find_all<M: Matcher + ?Sized>(m: &M, t: TreeView, root: usize) -> Seq<usize> {
    matched(m, t, level_order(t, root))
}

proof fn lemma_expand_bounds(t: TreeView, s: Seq<usize>, lo: int)
    requires
        wf_tree(t),
        forall|k: int| 0 <= k < s.len() ==> lo <= #[trigger] s[k] < t.len(),
    ensures
        forall|k: int| 0 <= k < expand(t, s).len() ==> lo + 1 <= #[trigger] expand(t, s)[k] < t.len(),
    decreases s.len(),
{
    if s.len() > 0 {
        lemma_expand_bounds(t, s.drop_last(), lo);
        let a = expand(t, s.drop_last());
        let c = t[s.last() as int].children;
        assert forall|k: int| 0 <= k < expand(t, s).len() implies lo + 1 <= #[trigger] expand(t, s)[k]
            < t.len() by {
            if k >= a.len() {
                assert(expand(t, s)[k] == c[k - a.len()]);
                assert(s.last() < c[k - a.len()]);
            }
        }
    }
}

/// The nodes at depth `k` lie at index `root + k` or later.
pub proof fn lemma_level_bounds(t: TreeView, root: usize, k: nat)
    requires
        wf_tree(t),
        root < t.len(),
    ensures
        forall|i: int| 0 <= i < level(t, root, k).len() ==> root + k <= #[trigger] level(t, root, k)[i] < t.len(),
    decreases k,
{
    if k > 0 {
        lemma_level_bounds(t, root, (k - 1) as nat);
        lemma_expand_bounds(t, level(t, root, (k - 1) as nat), root + k - 1);
    }
}

proof fn lemma_expand_empty(t: TreeView, s: Seq<usize>)
    requires
        s.len() == 0,
    ensures
        expand(t, s).len() == 0,
{
}

/// Once a level is empty, so is every deeper one, and the levels so far are all.
proof fn lemma_levels_rest(t: TreeView, root: usize, k: nat)
    requires
        level(t, root, k).len() == 0,
        k <= t.len(),
    ensures
        levels(t, root, t.len()) == levels(t, root, k),
    decreases t.len() - k,
{
    if k < t.len() {
        let k1 = (k + 1) as nat;
        lemma_expand_empty(t, level(t, root, k));
        assert(levels(t, root, k1) =~= levels(t, root, k));
        lemma_levels_rest(t, root, k1);
    }
}

/// A positive matcher: an affirmative condition that can stand alone as a rule.
pub trait PositiveMatcher: Matcher {

}

/// What a template gives as a matcher: the node itself on success, with the
/// new bindings; the environment untouched on failure.
pub open spec fn template_result(p: (TreeView, usize), t: TreeView, n: usize, env: EnvView) -> (
    Option<usize>,
    EnvView,
) {
    match pattern_matches(p, t, n, env) {
        Some(e) => (Some(n), e),
        None => (None, env),
    }
}

impl Matcher for Pattern {
    open spec fn matches(&self, t: TreeView, n: usize, env: EnvView) -> (Option<usize>, EnvView) {
        template_result(self.view(), t, n, env)
    }

    open spec fn well_formed(&self) -> bool {
        self.wf()
    }

    proof fn lemma_match_point(&self, t: TreeView, n: usize, env: EnvView) {
    }

    fn match_node<'t>(&self, node: Node<'t>, env: &mut MetaVarEnv) -> (r: Option<Node<'t>>) {
        Pattern::match_node(self, node, env)
    }
}

impl PositiveMatcher for Pattern {

}

/// Template text is a matcher: it is read as a [`Pattern`] at each test.
impl<'a> Matcher for &'a str {
    open spec fn matches(&self, t: TreeView, n: usize, env: EnvView) -> (Option<usize>, EnvView) {
        template_result((parse((*self)@), pattern_root(parse((*self)@))), t, n, env)
    }

    open spec fn well_formed(&self) -> bool {
        true
    }

    proof fn lemma_match_point(&self, t: TreeView, n: usize, env: EnvView) {
    }

    fn match_node<'t>(&self, node: Node<'t>, env: &mut MetaVarEnv) -> (r: Option<Node<'t>>) {
        let pattern = Pattern::new(self);
        pattern.match_node(node, env)
    }
}

impl<'a> PositiveMatcher for &'a str {

}

/// Template text is a matcher: it is read as a [`Pattern`] at each test.
impl Matcher for String {
    open spec fn matches(&self, t: TreeView, n: usize, env: EnvView) -> (Option<usize>, EnvView) {
        template_result((parse(self@), pattern_root(parse(self@))), t, n, env)
    }

    open spec fn well_formed(&self) -> bool {
        true
    }

    proof fn lemma_match_point(&self, t: TreeView, n: usize, env: EnvView) {
    }

    fn match_node<'t>(&self, node: Node<'t>, env: &mut MetaVarEnv) -> (r: Option<Node<'t>>) {
        let pattern = Pattern::new(self.as_str());
        pattern.match_node(node, env)
    }
}

impl PositiveMatcher for String {

}

/// Both: the second is tried at the node the first matched, with the
/// bindings the first made.
pub struct And<P1: Matcher, P2: Matcher> {
    pattern1: P1,
    pattern2: P2,
}

impl<P1: Matcher, P2: Matcher> And<P1, P2> {
    pub closed spec fn first(&self) -> P1 {
        self.pattern1
    }

    pub closed spec fn second(&self) -> P2 {
        self.pattern2
    }

    pub fn new(pattern1: P1, pattern2: P2) -> (r: Self)
        ensures
            r.first() == pattern1,
            r.second() == pattern2,
    {
        And { pattern1, pattern2 }
    }
}

impl<P1: Matcher, P2: Matcher> Matcher for And<P1, P2> {
    open spec fn matches(&self, t: TreeView, n: usize, env: EnvView) -> (Option<usize>, EnvView) {
        let (r1, e1) = self.first().matches(t, n, env);
        match r1 {
            None => (None, e1),
            Some(m) => self.second().matches(t, m, e1),
        }
    }

    open spec fn well_formed(&self) -> bool {
        self.first().well_formed() && self.second().well_formed()
    }

    proof fn lemma_match_point(&self, t: TreeView, n: usize, env: EnvView) {
        self.first().lemma_match_point(t, n, env);
        let e1 = self.first().matches(t, n, env).1;
        self.second().lemma_match_point(t, n, e1);
    }

    fn match_node<'t>(&self, node: Node<'t>, env: &mut MetaVarEnv) -> (r: Option<Node<'t>>) {
        match self.pattern1.match_node(node, env) {
            None => None,
            Some(m) => self.pattern2.match_node(m, env),
        }
    }
}

impl<P1: PositiveMatcher, P2: Matcher> PositiveMatcher for And<P1, P2> {

}

/// Either: the second is tried only where the first fails, at the same
/// node, with the environment as the first left it.
pub struct Or<P1: PositiveMatcher, P2: PositiveMatcher> {
    pattern1: P1,
    pattern2: P2,
}

impl<P1: PositiveMatcher, P2: PositiveMatcher> Or<P1, P2> {
    pub closed spec fn first(&self) -> P1 {
        self.pattern1
    }

    pub closed spec fn second(&self) -> P2 {
        self.pattern2
    }

    pub fn new(pattern1: P1, pattern2: P2) -> (r: Self)
        ensures
            r.first() == pattern1,
            r.second() == pattern2,
    {
        Or { pattern1, pattern2 }
    }
}

impl<P1: PositiveMatcher, P2: PositiveMatcher> Matcher for Or<P1, P2> {
    open spec fn matches(&self, t: TreeView, n: usize, env: EnvView) -> (Option<usize>, EnvView) {
        let (r1, e1) = self.first().matches(t, n, env);
        if r1 is Some {
            (r1, e1)
        } else {
            self.second().matches(t, n, e1)
        }
    }

    open spec fn well_formed(&self) -> bool {
        self.first().well_formed() && self.second().well_formed()
    }

    proof fn lemma_match_point(&self, t: TreeView, n: usize, env: EnvView) {
        self.first().lemma_match_point(t, n, env);
        let e1 = self.first().matches(t, n, env).1;
        self.second().lemma_match_point(t, n, e1);
    }

    fn match_node<'t>(&self, node: Node<'t>, env: &mut MetaVarEnv) -> (r: Option<Node<'t>>) {
        match self.pattern1.match_node(node, env) {
            Some(m) => Some(m),
            None => self.pattern2.match_node(node, env),
        }
    }
}

impl<P1: PositiveMatcher, P2: PositiveMatcher> PositiveMatcher for Or<P1, P2> {

}

/// Walks up from `n`: whether some proper ancestor matches template `p`,
/// and the environment after the walk.
pub open spec fn ancestor_walk(p: (TreeView, usize), t: TreeView, n: usize, env: EnvView) -> (
    bool,
    EnvView,
)
    decreases n,
    when wf_tree(t) && n < t.len()
{
    match t[n as int].parent {
        None => (false, env),
        Some(q) => match pattern_matches(p, t, q, env) {
            Some(e1) => (true, e1),
            None => ancestor_walk(p, t, q, env),
        },
    }
}

/// Matches where some ancestor matches the template.
pub struct Inside {
    outer: Pattern,
}

impl Inside {
    pub closed spec fn outer(&self) -> Pattern {
        self.outer
    }

    pub fn new(outer: Pattern) -> (r: Self)
        ensures
            r.outer() == outer,
    {
        Inside { outer }
    }
}

/// Walks up from `node`, testing each ancestor against `outer`.
fn walk_up<'t>(outer: &Pattern, node: Node<'t>, env: &mut MetaVarEnv) -> (r: bool)
    requires
        outer.wf(),
        node.wf(),
        env_in(old(env)@, node.tree()),
    ensures
        ancestor_walk(outer.view(), node.tree(), node.id(), old(env)@) == (r, final(env)@),
        env_in(final(env)@, node.tree()),
{
    let mut cur = node;
    loop
        invariant
            outer.wf(),
            cur.wf(),
            cur.tree() == node.tree(),
            node.wf(),
            env_in(env@, node.tree()),
            ancestor_walk(outer.view(), node.tree(), node.id(), old(env)@) == ancestor_walk(
                outer.view(),
                node.tree(),
                cur.id(),
                env@,
            ),
        decreases cur.id(),
    {
        match cur.parent() {
            None => {
                return false;
            },
            Some(q) => {
                if outer.match_node(q, env).is_some() {
                    return true;
                }
                cur = q;
            },
        }
    }
}

impl Matcher for Inside {
    open spec fn matches(&self, t: TreeView, n: usize, env: EnvView) -> (Option<usize>, EnvView) {
        let (found, e) = ancestor_walk(self.outer().view(), t, n, env);
        (if found { Some(n) } else { None }, e)
    }

    open spec fn well_formed(&self) -> bool {
        self.outer().wf()
    }

    proof fn lemma_match_point(&self, t: TreeView, n: usize, env: EnvView) {
    }

    fn match_node<'t>(&self, node: Node<'t>, env: &mut MetaVarEnv) -> (r: Option<Node<'t>>) {
        if walk_up(&self.outer, node, env) {
            Some(node)
        } else {
            None
        }
    }
}

/// Matches where no ancestor matches the template.
pub struct NotInside {
    outer: Pattern,
}

impl NotInside {
    pub closed spec fn outer(&self) -> Pattern {
        self.outer
    }

    pub fn new(outer: Pattern) -> (r: Self)
        ensures
            r.outer() == outer,
    {
        NotInside { outer }
    }
}

impl Matcher for NotInside {
    open spec fn matches(&self, t: TreeView, n: usize, env: EnvView) -> (Option<usize>, EnvView) {
        let (found, e) = ancestor_walk(self.outer().view(), t, n, env);
        (if found { None } else { Some(n) }, e)
    }

    open spec fn well_formed(&self) -> bool {
        self.outer().wf()
    }

    proof fn lemma_match_point(&self, t: TreeView, n: usize, env: EnvView) {
    }

    fn match_node<'t>(&self, node: Node<'t>, env: &mut MetaVarEnv) -> (r: Option<Node<'t>>) {
        if walk_up(&self.outer, node, env) {
            None
        } else {
            Some(node)
        }
    }
}

/// Matches where the inner matcher does not match that very node.
pub struct Not<P: PositiveMatcher> {
    not: P,
}

impl<P: PositiveMatcher> Not<P> {
    pub closed spec fn inner(&self) -> P {
        self.not
    }

    pub fn new(not: P) -> (r: Self)
        ensures
            r.inner() == not,
    {
        Not { not }
    }
}

impl<P: PositiveMatcher> Matcher for Not<P> {
    open spec fn matches(&self, t: TreeView, n: usize, env: EnvView) -> (Option<usize>, EnvView) {
        let (r1, e1) = self.inner().matches(t, n, env);
        (if r1 is None { Some(n) } else { None }, e1)
    }

    open spec fn well_formed(&self) -> bool {
        self.inner().well_formed()
    }

    proof fn lemma_match_point(&self, t: TreeView, n: usize, env: EnvView) {
    }

    fn match_node<'t>(&self, node: Node<'t>, env: &mut MetaVarEnv) -> (r: Option<Node<'t>>) {
        if self.not.match_node(node, env).is_none() {
            Some(node)
        } else {
            None
        }
    }
}

/// A finished rule around a positive matcher.
pub struct Rule<M: Matcher> {
    inner: M,
}

impl<M: Matcher> Rule<M> {
    pub closed spec fn matcher(&self) -> M {
        self.inner
    }
}

impl<M: PositiveMatcher> Rule<M> {
    /// Starts a conjunction from a positive matcher.
    pub fn all(pattern: M) -> (r: AndRule<M>)
        ensures
            r.matcher() == pattern,
    {
        AndRule { inner: pattern }
    }

    /// Starts a disjunction from a positive matcher.
    pub fn either(pattern: M) -> (r: EitherRule<M>)
        ensures
            r.matcher() == pattern,
    {
        EitherRule { inner: pattern }
    }

    /// The negation of a positive matcher, to be used as a refinement.
    pub fn not(pattern: M) -> (r: Not<M>)
        ensures
            r.inner() == pattern,
    {
        Not { not: pattern }
    }

    /// The matcher the rule was built into.
    pub fn build(self) -> (r: M)
        ensures
            r == self.matcher(),
    {
        self.inner
    }
}

/// A conjunction waiting for its first refinement.
pub struct AndRule<M> {
    inner: M,
}

impl<M> AndRule<M> {
    pub closed spec fn matcher(&self) -> M {
        self.inner
    }
}

impl<M: PositiveMatcher> AndRule<M> {
    /// Adds a refinement, positive or not.
    pub fn and<N: Matcher>(self, other: N) -> (r: Rule<And<M, N>>)
        ensures
            r.matcher().first() == self.matcher(),
            r.matcher().second() == other,
    {
        Rule { inner: And { pattern1: self.inner, pattern2: other } }
    }
}

impl<M: PositiveMatcher, N: Matcher> Rule<And<M, N>> {
    /// Adds a further refinement, positive or not.
    pub fn and<O: Matcher>(self, other: O) -> (r: Rule<And<And<M, N>, O>>)
        ensures
            r.matcher().first() == self.matcher(),
            r.matcher().second() == other,
    {
        Rule { inner: And { pattern1: self.inner, pattern2: other } }
    }
}

/// A disjunction waiting for its second alternative.
pub struct EitherRule<M> {
    inner: M,
}

impl<M> EitherRule<M> {
    pub closed spec fn matcher(&self) -> M {
        self.inner
    }
}

impl<M: PositiveMatcher> EitherRule<M> {
    /// Adds a positive alternative.
    pub fn or<N: PositiveMatcher>(self, other: N) -> (r: Rule<Or<M, N>>)
        ensures
            r.matcher().first() == self.matcher(),
            r.matcher().second() == other,
    {
        Rule { inner: Or { pattern1: self.inner, pattern2: other } }
    }
}

impl<M: PositiveMatcher, N: PositiveMatcher> Rule<Or<M, N>> {
    /// Adds a further positive alternative.
    pub fn or<O: PositiveMatcher>(self, other: O) -> (r: Rule<Or<Or<M, N>, O>>)
        ensures
            r.matcher().first() == self.matcher(),
            r.matcher().second() == other,
    {
        Rule { inner: Or { pattern1: self.inner, pattern2: other } }
    }
}

} // verus!
