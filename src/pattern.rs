//! Structural templates: a tree read from text in which `$_` stands for any
//! node, `$NAME` for any node that is bound to `NAME` (or, once bound, for a
//! node of the same shape as the bound one), and `$$$` for any run of
//! siblings.

use vstd::prelude::*;
use crate::tree::{Root, Node, TreeView, wf_tree};
use crate::parse::parse;
use crate::meta_var::{MetaVarEnv, EnvView, env_get, same_text};

verus! {

pub open spec fn is_any(t: Seq<char>) -> bool {
    t == seq!['$', '_']
}

pub open spec fn is_multi(t: Seq<char>) -> bool {
    t == seq!['$', '$', '$']
}

pub open spec fn is_name_char(c: char) -> bool {
    ('A' <= c && c <= 'Z') || ('0' <= c && c <= '9') || c == '_'
}

/// `$` followed by capitals, digits and underscores, other than `$_`.
pub open spec fn is_named(t: Seq<char>) -> bool {
    &&& t.len() >= 2
    &&& t[0] == '$'
    &&& forall|i: int| 1 <= i < t.len() ==> is_name_char(#[trigger] t[i])
    &&& !is_any(t)
}

/// Whether nodes `a` and `b` of `t` have the same text and shape.
pub open spec fn same_tree(t: TreeView, a: usize, b: usize) -> bool
    decreases t.len() - a, 1nat, 0nat,
    when wf_tree(t) && a < t.len()
{
    &&& t[a as int].text == t[b as int].text
    &&& t[a as int].children.len() == t[b as int].children.len()
    &&& same_kids(t, a, b, 0)
}

/// Whether the children of `a` and `b` from the `k`-th on are pairwise the same.
pub open spec fn same_kids(t: TreeView, a: usize, b: usize, k: nat) -> bool
    decreases t.len() - a, 0nat, t[a as int].children.len() - k,
    when wf_tree(t) && a < t.len()
{
    if k >= t[a as int].children.len() {
        true
    } else {
        same_tree(t, t[a as int].children[k as int], t[b as int].children[k as int]) && same_kids(
            t,
            a,
            b,
            k + 1,
        )
    }
}

/// Matching node `pi` of template `p` against node `ti` of `t` under `env`:
/// the environment after success, or none.
pub open spec fn match_tree(p: TreeView, pi: usize, t: TreeView, ti: usize, env: EnvView) -> Option<
    EnvView,
>
    decreases p.len() - pi, 1nat, 0nat, 0nat,
    when wf_tree(p) && pi < p.len()
{
    let pn = p[pi as int];
    if pn.children.len() == 0 && (is_any(pn.text) || is_multi(pn.text)) {
        Some(env)
    } else if pn.children.len() == 0 && is_named(pn.text) {
        match env_get(env, pn.text) {
            Some(b) => if same_tree(t, b, ti) {
                Some(env)
            } else {
                None
            },
            None => Some(env.push((pn.text, ti))),
        }
    } else if pn.text != t[ti as int].text {
        None
    } else {
        match_seq(p, pi, 0, t, t[ti as int].children, 0, env)
    }
}

/// Matching the children of template node `pi` from the `i`-th on against
/// `ts` from the `j`-th on. A `$$$` takes as few nodes as it can.
pub open spec fn match_seq(
    p: TreeView,
    pi: usize,
    i: nat,
    t: TreeView,
    ts: Seq<usize>,
    j: nat,
    env: EnvView,
) -> Option<EnvView>
    decreases p.len() - pi, 0nat, p[pi as int].children.len() - i, ts.len() - j,
    when wf_tree(p) && pi < p.len()
{
    let ps = p[pi as int].children;
    if i >= ps.len() {
        if j >= ts.len() {
            Some(env)
        } else {
            None
        }
    } else {
        let c = ps[i as int];
        if p[c as int].children.len() == 0 && is_multi(p[c as int].text) {
            match match_seq(p, pi, i + 1, t, ts, j, env) {
                Some(e) => Some(e),
                None => if j < ts.len() {
                    match_seq(p, pi, i, t, ts, j + 1, env)
                } else {
                    None
                },
            }
        } else if j >= ts.len() {
            None
        } else {
            match match_tree(p, c, t, ts[j as int], env) {
                None => None,
                Some(e1) => match_seq(p, pi, i + 1, t, ts, j + 1, e1),
            }
        }
    }
}

/// The node of a template tree that is matched: the single top-level
/// statement, or the whole tree where there are several or none.
pub open spec fn pattern_root(p: TreeView) -> usize {
    if p[0].children.len() == 1 {
        p[0].children[0]
    } else {
        0
    }
}

/// `env` extended: it starts with `old`.
pub open spec fn extends(env: EnvView, old: EnvView) -> bool {
    env.len() >= old.len() && env.subrange(0, old.len() as int) == old
}

fn same_tree_exec(t: &Root, a: usize, b: usize) -> (r: bool)
    requires
        t.wf(),
        a < t@.len(),
        b < t@.len(),
    ensures
        r == same_tree(t@, a, b),
    decreases t@.len() - a, 1nat, 0nat,
{
    let ka = t.children_of(a);
    let kb = t.children_of(b);
    if !same_text(t.text_of(a), t.text_of(b)) || ka.len() != kb.len() {
        return false;
    }
    let mut k: usize = 0;
    while k < ka.len()
        invariant
            t.wf(),
            a < t@.len(),
            b < t@.len(),
            ka@ == t@[a as int].children,
            kb@ == t@[b as int].children,
            ka@.len() == kb@.len(),
            k <= ka@.len(),
            same_tree(t@, a, b) == same_kids(t@, a, b, k as nat),
        decreases ka@.len() - k,
    {
        let x = ka[k];
        let y = kb[k];
        assert(a < x);
        assert(wf_tree(t@) && 0 <= b < t@.len() && 0 <= k < t@[b as int].children.len());
        assert(y < t@.len());
        if !same_tree_exec(t, x, y) {
            return false;
        }
        k = k + 1;
    }
    true
}

/// Exact matching of node `pi` of `p` against node `ti` of `t`. On success
/// `env` holds the new bindings; on failure it is as it was.
fn match_tree_exec(p: &Root, pi: usize, t: &Root, ti: usize, env: &mut MetaVarEnv) -> (r: bool)
    requires
        p.wf(),
        t.wf(),
        pi < p@.len(),
        ti < t@.len(),
        forall|k: int| 0 <= k < old(env)@.len() ==> (#[trigger] old(env)@[k]).1 < t@.len(),
    ensures
        r == match_tree(p@, pi, t@, ti, old(env)@) is Some,
        r ==> final(env)@ == match_tree(p@, pi, t@, ti, old(env)@)->0,
        !r ==> final(env)@ == old(env)@,
        forall|k: int| 0 <= k < final(env)@.len() ==> (#[trigger] final(env)@[k]).1 < t@.len(),
    decreases p@.len() - pi, 1nat, 0nat, 0nat,
{
    let ptext = p.text_of(pi);
    let leaf = p.children_of(pi).len() == 0;
    if leaf && (is_any_exec(ptext) || is_multi_exec(ptext)) {
        true
    } else if leaf && is_named_exec(ptext) {
        proof {
            lemma_env_get_bound(env@, ptext@, t@.len());
        }
        match env.get(ptext) {
            Some(b) => same_tree_exec(t, b, ti),
            None => {
                env.insert(ptext.clone(), ti);
                true
            },
        }
    } else if !same_text(ptext, t.text_of(ti)) {
        false
    } else {
        match_seq_exec(p, pi, 0, t, t.children_of(ti), 0, env)
    }
}

proof fn lemma_env_get_bound(e: EnvView, name: Seq<char>, n: nat)
    requires
        forall|k: int| 0 <= k < e.len() ==> (#[trigger] e[k]).1 < n,
    ensures
        env_get(e, name) matches Some(b) ==> b < n,
    decreases e.len(),
{
    if e.len() > 0 && e.last().0 != name {
        lemma_env_get_bound(e.drop_last(), name, n);
    }
}

fn match_seq_exec(
    p: &Root,
    pi: usize,
    i: usize,
    t: &Root,
    ts: &Vec<usize>,
    j: usize,
    env: &mut MetaVarEnv,
) -> (r: bool)
    requires
        p.wf(),
        t.wf(),
        pi < p@.len(),
        i <= p@[pi as int].children.len(),
        j <= ts@.len(),
        forall|k: int| 0 <= k < ts@.len() ==> #[trigger] ts@[k] < t@.len(),
        forall|k: int| 0 <= k < old(env)@.len() ==> (#[trigger] old(env)@[k]).1 < t@.len(),
    ensures
        r == match_seq(p@, pi, i as nat, t@, ts@, j as nat, old(env)@) is Some,
        r ==> final(env)@ == match_seq(p@, pi, i as nat, t@, ts@, j as nat, old(env)@)->0,
        !r ==> final(env)@ == old(env)@,
        forall|k: int| 0 <= k < final(env)@.len() ==> (#[trigger] final(env)@[k]).1 < t@.len(),
    decreases p@.len() - pi, 0nat, p@[pi as int].children.len() - i, ts@.len() - j,
{
    let ps = p.children_of(pi);
    if i >= ps.len() {
        return j >= ts.len();
    }
    let c = ps[i];
    assert(pi < c && c < p@.len());
    if p.children_of(c).len() == 0 && is_multi_exec(p.text_of(c)) {
        if match_seq_exec(p, pi, i + 1, t, ts, j, env) {
            true
        } else if j < ts.len() {
            match_seq_exec(p, pi, i, t, ts, j + 1, env)
        } else {
            false
        }
    } else if j >= ts.len() {
        false
    } else {
        let ghost e0 = env@;
        let save = env.len();
        if match_tree_exec(p, c, t, ts[j], env) {
            proof {
                lemma_match_tree_extends(p@, c, t@, ts@[j as int], e0);
            }
            if match_seq_exec(p, pi, i + 1, t, ts, j + 1, env) {
                true
            } else {
                env.truncate(save);
                false
            }
        } else {
            false
        }
    }
}

proof fn lemma_match_tree_extends(p: TreeView, pi: usize, t: TreeView, ti: usize, env: EnvView)
    requires
        wf_tree(p),
        pi < p.len(),
    ensures
        match_tree(p, pi, t, ti, env) matches Some(e) ==> extends(e, env),
    decreases p.len() - pi, 1nat, 0nat, 0nat,
{
    let pn = p[pi as int];
    if pn.children.len() == 0 && (is_any(pn.text) || is_multi(pn.text)) {
        assert(env.subrange(0, env.len() as int) =~= env);
    } else if pn.children.len() == 0 && is_named(pn.text) {
        assert(env.subrange(0, env.len() as int) =~= env);
        assert(env.push((pn.text, ti)).subrange(0, env.len() as int) =~= env);
    } else if pn.text != t[ti as int].text {
    } else {
        lemma_match_seq_extends(p, pi, 0, t, t[ti as int].children, 0, env);
    }
}

proof fn lemma_match_seq_extends(
    p: TreeView,
    pi: usize,
    i: nat,
    t: TreeView,
    ts: Seq<usize>,
    j: nat,
    env: EnvView,
)
    requires
        wf_tree(p),
        pi < p.len(),
    ensures
        match_seq(p, pi, i, t, ts, j, env) matches Some(e) ==> extends(e, env),
    decreases p.len() - pi, 0nat, p[pi as int].children.len() - i, ts.len() - j,
{
    let ps = p[pi as int].children;
    assert(env.subrange(0, env.len() as int) =~= env);
    if i < ps.len() {
        let c = ps[i as int];
        if p[c as int].children.len() == 0 && is_multi(p[c as int].text) {
            lemma_match_seq_extends(p, pi, i + 1, t, ts, j, env);
            if j < ts.len() {
                lemma_match_seq_extends(p, pi, i, t, ts, j + 1, env);
            }
        } else if j < ts.len() {
            lemma_match_tree_extends(p, c, t, ts[j as int], env);
            if let Some(e1) = match_tree(p, c, t, ts[j as int], env) {
                lemma_match_seq_extends(p, pi, i + 1, t, ts, j + 1, e1);
                if let Some(e2) = match_seq(p, pi, i + 1, t, ts, j + 1, e1) {
                    assert(e2.subrange(0, env.len() as int) =~= e2.subrange(0, e1.len() as int).subrange(0, env.len() as int));
                }
            }
        }
    }
}

fn is_any_exec(t: &Vec<char>) -> (r: bool)
    ensures
        r == is_any(t@),
{
    let r = t.len() == 2 && t[0] == '$' && t[1] == '_';
    assert(r ==> t@ =~= seq!['$', '_']);
    r
}

fn is_multi_exec(t: &Vec<char>) -> (r: bool)
    ensures
        r == is_multi(t@),
{
    let r = t.len() == 3 && t[0] == '$' && t[1] == '$' && t[2] == '$';
    assert(r ==> t@ =~= seq!['$', '$', '$']);
    r
}

fn is_named_exec(t: &Vec<char>) -> (r: bool)
    ensures
        r == is_named(t@),
{
    if t.len() < 2 || t[0] != '$' || is_any_exec(t) {
        return false;
    }
    let mut i: usize = 1;
    while i < t.len()
        invariant
            1 <= i <= t@.len(),
            forall|k: int| 1 <= k < i ==> is_name_char(#[trigger] t@[k]),
        decreases t@.len() - i,
    {
        let c = t[i];
        if !(('A' <= c && c <= 'Z') || ('0' <= c && c <= '9') || c == '_') {
            return false;
        }
        i = i + 1;
    }
    true
}

/// A template, ready to be matched.
pub struct Pattern {
    tree: Root,
    root: usize,
}

/// Whether template `p` matches node `n` of `t` under `env`: the environment
/// after success, or none.
pub open spec fn pattern_matches(p: (TreeView, usize), t: TreeView, n: usize, env: EnvView) -> Option<EnvView> {
    match_tree(p.0, p.1, t, n, env)
}

impl Pattern {
    /// The template tree and the node of it that is matched.
    pub closed spec fn view(&self) -> (TreeView, usize) {
        (self.tree@, self.root)
    }

    pub closed spec fn wf(&self) -> bool {
        self.tree.wf() && self.root < self.tree@.len()
    }

    /// Reads a template from text.
    pub fn new(src: &str) -> (r: Pattern)
        ensures
            r.view() == (parse(src@), pattern_root(parse(src@))),
            r.wf(),
    {
        let tree = Root::new(src);
        let kids = tree.children_of(0);
        let root = if kids.len() == 1 {
            kids[0]
        } else {
            0
        };
        Pattern { tree, root }
    }

    /// Matches the template against `node`. On success the result is `node`
    /// and `env` holds the new bindings; on failure `env` is as it was.
    pub fn match_node<'t>(&self, node: Node<'t>, env: &mut MetaVarEnv) -> (r: Option<Node<'t>>)
        requires
            self.wf(),
            node.wf(),
            forall|k: int| 0 <= k < old(env)@.len() ==> (#[trigger] old(env)@[k]).1 < node.tree().len(),
        ensures
            match pattern_matches(self.view(), node.tree(), node.id(), old(env)@) {
                Some(e) => r == Some(node) && final(env)@ == e,
                None => r is None && final(env)@ == old(env)@,
            },
            forall|k: int| 0 <= k < final(env)@.len() ==> (#[trigger] final(env)@[k]).1 < node.tree().len(),
    {
        if match_tree_exec(&self.tree, self.root, node.get_root(), node.index(), env) {
            Some(node)
        } else {
            None
        }
    }
}

} // verus!
