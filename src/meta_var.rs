//! The binding environment: captures of named placeholders for one match attempt.

use vstd::prelude::*;

verus! {

/// Bindings in the order they were made: placeholder name and node index.
pub type EnvView = Seq<(Seq<char>, usize)>;

/// The node bound to `name`: the latest binding of it, if any.
pub open spec fn env_get(e: EnvView, name: Seq<char>) -> Option<usize>
    decreases e.len(),
{
    if e.len() == 0 {
        None
    } else if e.last().0 == name {
        Some(e.last().1)
    } else {
        env_get(e.drop_last(), name)
    }
}

pub struct MetaVarEnv {
    entries: Vec<(Vec<char>, usize)>,
}

impl View for MetaVarEnv {
    type V = EnvView;

    closed spec fn view(&self) -> EnvView {
        self.entries@.map_values(|e: (Vec<char>, usize)| (e.0@, e.1))
    }
}

/// Whether two texts are equal.
pub fn same_text(a: &Vec<char>, b: &Vec<char>) -> (r: bool)
    ensures
        r == (a@ == b@),
{
    if a.len() != b.len() {
        return false;
    }
    let mut i: usize = 0;
    while i < a.len()
        invariant
            a@.len() == b@.len(),
            i <= a@.len(),
            a@.subrange(0, i as int) == b@.subrange(0, i as int),
        decreases a@.len() - i,
    {
        if a[i] != b[i] {
            assert(a@.subrange(0, i as int + 1)[i as int] != b@.subrange(0, i as int + 1)[i as int]);
            return false;
        }
        assert(a@.subrange(0, i as int + 1) =~= a@.subrange(0, i as int).push(a[i as int]));
        assert(b@.subrange(0, i as int + 1) =~= b@.subrange(0, i as int).push(b[i as int]));
        i = i + 1;
    }
    assert(a@ =~= a@.subrange(0, i as int));
    assert(b@ =~= b@.subrange(0, i as int));
    true
}

impl MetaVarEnv {
    /// An environment with no bindings.
    pub fn new() -> (r: MetaVarEnv)
        ensures
            r@ == Seq::<(Seq<char>, usize)>::empty(),
    {
        let r = MetaVarEnv { entries: Vec::new() };
        assert(r@ =~= Seq::<(Seq<char>, usize)>::empty());
        r
    }

    pub fn len(&self) -> (r: usize)
        ensures
            r == self@.len(),
    {
        self.entries.len()
    }

    /// The node bound to `name`.
    pub fn get(&self, name: &Vec<char>) -> (r: Option<usize>)
        ensures
            r == env_get(self@, name@),
    {
        let mut i: usize = self.entries.len();
        assert(self@.subrange(0, i as int) =~= self@);
        while i > 0
            invariant
                i <= self@.len(),
                env_get(self@, name@) == env_get(self@.subrange(0, i as int), name@),
            decreases i,
        {
            let ghost pre = self@.subrange(0, i as int);
            assert(pre.drop_last() =~= self@.subrange(0, i - 1));
            if same_text(&self.entries[i - 1].0, name) {
                return Some(self.entries[i - 1].1);
            }
            i = i - 1;
        }
        None
    }

    /// Binds `name` to `id`.
    pub fn insert(&mut self, name: Vec<char>, id: usize)
        ensures
            final(self)@ == old(self)@.push((name@, id)),
    {
        self.entries.push((name, id));
        assert(final(self)@ =~= old(self)@.push((name@, id)));
    }

    /// Forgets every binding but the first `n`.
    pub fn truncate(&mut self, n: usize)
        requires
            n <= old(self)@.len(),
        ensures
            final(self)@ == old(self)@.subrange(0, n as int),
    {
        self.entries.truncate(n);
        assert(final(self)@ =~= old(self)@.subrange(0, n as int));
    }
}

} // verus!
