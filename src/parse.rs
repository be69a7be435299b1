//! Reading source text into a tree.
//!
//! Words (letters, digits, `_` and `$`) and single punctuation characters are
//! tokens. A statement ends at `;`, at a line break, or where its block
//! closes; a statement of one token is that token alone, a longer one is a
//! node (text empty) over its tokens. `{ ... }` is a node of text `{}` inside
//! its statement, over the statements it holds. Node 0, of empty text, holds
//! the statements of the top level.

use vstd::prelude::*;
use crate::tree::{Root, TreeView, NodeView, wf_tree, with_child};

verus! {

pub open spec fn is_word_char(c: char) -> bool {
    ('a' <= c && c <= 'z') || ('A' <= c && c <= 'Z') || ('0' <= c && c <= '9') || c == '_' || c
        == '$'
}

pub open spec fn is_blank(c: char) -> bool {
    c == ' ' || c == '\t' || c == '\r'
}

pub open spec fn block_text() -> Seq<char> {
    seq!['{', '}']
}

/// The reader's state after a prefix of the input.
pub ghost struct ParseState {
    pub nodes: TreeView,
    /// Open containers, innermost last: each with the statement that holds it.
    pub open: Seq<(usize, Option<usize>)>,
    /// The statement being filled, once it has two items or a block.
    pub stmt: Option<usize>,
    /// The first token of a statement that has no node yet.
    pub pending: Option<Seq<char>>,
    /// The word being read.
    pub word: Seq<char>,
}

pub open spec fn top(st: ParseState) -> usize {
    st.open.last().0
}

pub open spec fn init_state() -> ParseState {
    ParseState {
        nodes: seq![NodeView { text: Seq::empty(), children: Seq::empty(), parent: None }],
        open: seq![(0usize, None)],
        stmt: None,
        pending: None,
        word: Seq::empty(),
    }
}

pub open spec fn place_token(st: ParseState, tok: Seq<char>) -> ParseState {
    match (st.stmt, st.pending) {
        (Some(s), _) => ParseState { nodes: with_child(st.nodes, s, tok), ..st },
        (None, None) => ParseState { pending: Some(tok), ..st },
        (None, Some(p)) => {
            let s = st.nodes.len() as usize;
            let n1 = with_child(st.nodes, top(st), Seq::empty());
            let n2 = with_child(n1, s, p);
            ParseState { nodes: with_child(n2, s, tok), stmt: Some(s), pending: None, ..st }
        },
    }
}

pub open spec fn flush_word(st: ParseState) -> ParseState {
    if st.word.len() > 0 {
        place_token(ParseState { word: Seq::empty(), ..st }, st.word)
    } else {
        st
    }
}

pub open spec fn end_stmt(st: ParseState) -> ParseState {
    let nodes = match st.pending {
        Some(p) => with_child(st.nodes, top(st), p),
        None => st.nodes,
    };
    ParseState { nodes, stmt: None, pending: None, ..st }
}

pub open spec fn open_block(st: ParseState) -> ParseState {
    let (nodes, s) = match st.stmt {
        Some(s) => (st.nodes, s),
        None => {
            let s = st.nodes.len() as usize;
            let n1 = with_child(st.nodes, top(st), Seq::empty());
            match st.pending {
                Some(p) => (with_child(n1, s, p), s),
                None => (n1, s),
            }
        },
    };
    let b = nodes.len() as usize;
    ParseState {
        nodes: with_child(nodes, s, block_text()),
        open: st.open.push((b, Some(s))),
        stmt: None,
        pending: None,
        ..st
    }
}

pub open spec fn close_block(st: ParseState) -> ParseState {
    let e = end_stmt(st);
    ParseState { open: e.open.drop_last(), stmt: e.open.last().1, ..e }
}

pub open spec fn step(st: ParseState, c: char) -> ParseState {
    if is_word_char(c) {
        ParseState { word: st.word.push(c), ..st }
    } else {
        let f = flush_word(st);
        if is_blank(c) {
            f
        } else if c == ';' || c == '\n' {
            end_stmt(f)
        } else if c == '{' {
            open_block(f)
        } else if c == '}' && f.open.len() > 1 {
            close_block(f)
        } else {
            place_token(f, seq![c])
        }
    }
}

pub open spec fn state_after(s: Seq<char>, i: nat) -> ParseState
    decreases i,
{
    if i == 0 || i > s.len() {
        init_state()
    } else {
        step(state_after(s, (i - 1) as nat), s[i - 1])
    }
}

/// The tree that `s` reads as.
pub open spec fn parse(s: Seq<char>) -> TreeView {
    end_stmt(flush_word(state_after(s, s.len()))).nodes
}

/// What the reader keeps true.
pub open spec fn state_ok(st: ParseState) -> bool {
    &&& wf_tree(st.nodes)
    &&& st.nodes.len() > 0
    &&& st.open.len() > 0
    &&& forall|k: int| 0 <= k < st.open.len() ==> (#[trigger] st.open[k]).0 < st.nodes.len()
    &&& forall|k: int| 0 <= k < st.open.len() && (#[trigger] st.open[k]).1 is Some ==> st.open[k].1->0 < st.nodes.len()
    &&& st.stmt is Some ==> st.stmt->0 < st.nodes.len()
    &&& st.pending is Some ==> st.stmt is None
}

/// The reader at work.
struct Parser {
    root: Root,
    open: Vec<(usize, Option<usize>)>,
    stmt: Option<usize>,
    pending: Option<Vec<char>>,
    word: Vec<char>,
}

impl Parser {
    closed spec fn view(&self) -> ParseState {
        ParseState {
            nodes: self.root@,
            open: self.open@,
            stmt: self.stmt,
            pending: match self.pending {
                Some(p) => Some(p@),
                None => None,
            },
            word: self.word@,
        }
    }

    fn place_token(&mut self, tok: Vec<char>)
        requires
            state_ok(old(self).view()),
        ensures
            final(self).view() == place_token(old(self).view(), tok@),
            state_ok(final(self).view()),
    {
        let top = self.open[self.open.len() - 1].0;
        match self.stmt {
            Some(s) => {
                self.root.add_child(s, tok);
            },
            None => {
                let pending = self.pending.take();
                match pending {
                    None => {
                        self.pending = Some(tok);
                    },
                    Some(p) => {
                        let s = self.root.add_child(top, Vec::new());
                        self.root.add_child(s, p);
                        self.root.add_child(s, tok);
                        self.stmt = Some(s);
                    },
                }
            },
        }
    }

    fn flush_word(&mut self)
        requires
            state_ok(old(self).view()),
        ensures
            final(self).view() == flush_word(old(self).view()),
            state_ok(final(self).view()),
    {
        if self.word.len() > 0 {
            let mut w: Vec<char> = Vec::new();
            std::mem::swap(&mut w, &mut self.word);
            self.place_token(w);
        }
    }

    fn end_stmt(&mut self)
        requires
            state_ok(old(self).view()),
        ensures
            final(self).view() == end_stmt(old(self).view()),
            state_ok(final(self).view()),
    {
        let top = self.open[self.open.len() - 1].0;
        let pending = self.pending.take();
        if let Some(p) = pending {
            self.root.add_child(top, p);
        }
        self.stmt = None;
    }

    fn open_block(&mut self)
        requires
            state_ok(old(self).view()),
        ensures
            final(self).view() == open_block(old(self).view()),
            state_ok(final(self).view()),
    {
        let top = self.open[self.open.len() - 1].0;
        let s = match self.stmt {
            Some(s) => s,
            None => {
                let s = self.root.add_child(top, Vec::new());
                let pending = self.pending.take();
                if let Some(p) = pending {
                    self.root.add_child(s, p);
                }
                s
            },
        };
        let b = self.root.add_child(s, vec!['{', '}']);
        assert(seq!['{', '}'] =~= block_text());
        self.open.push((b, Some(s)));
        self.stmt = None;
        self.pending = None;
    }

    fn close_block(&mut self)
        requires
            state_ok(old(self).view()),
            old(self).view().open.len() > 1,
        ensures
            final(self).view() == close_block(old(self).view()),
            state_ok(final(self).view()),
    {
        self.end_stmt();
        let last = self.open.pop().unwrap();
        self.stmt = last.1;
    }
}

impl Root {
    /// Reads `code` into a tree.
    #[verifier::rlimit(40)]
    pub fn new(code: &str) -> (r: Root)
        ensures
            r@ == parse(code@),
            r.wf(),
    {
        let n = code.unicode_len();
        let mut p = Parser {
            root: Root::single(Vec::new()),
            open: vec![(0usize, None)],
            stmt: None,
            pending: None,
            word: Vec::new(),
        };
        proof {
            assert(p.view().nodes =~= init_state().nodes);
            assert(p.view().open =~= init_state().open);
            assert(p.view() =~= init_state());
        }
        let mut i: usize = 0;
        while i < n
            invariant
                n == code@.len(),
                i <= n,
                p.view() == state_after(code@, i as nat),
                state_ok(p.view()),
            decreases n - i,
        {
            let c = code.get_char(i);
            let ghost st0 = p.view();
            if is_word_char_exec(c) {
                p.word.push(c);
                assert(p.view() =~= step(st0, c));
            } else {
                p.flush_word();
                if c == ' ' || c == '\t' || c == '\r' {
                } else if c == ';' || c == '\n' {
                    p.end_stmt();
                } else if c == '{' {
                    p.open_block();
                } else if c == '}' && p.open.len() > 1 {
                    p.close_block();
                } else {
                    let tok = vec![c];
                    assert(tok@ =~= seq![c]);
                    p.place_token(tok);
                }
            }
            proof {
                assert(p.view() =~= step(state_after(code@, i as nat), c));
            }
            i = i + 1;
        }
        p.flush_word();
        p.end_stmt();
        p.root
    }
}

fn is_word_char_exec(c: char) -> (r: bool)
    ensures
        r == is_word_char(c),
{
    ('a' <= c && c <= 'z') || ('A' <= c && c <= 'Z') || ('0' <= c && c <= '9') || c == '_' || c
        == '$'
}

} // verus!
