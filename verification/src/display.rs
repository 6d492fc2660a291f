//! The indentation in front of a line when a tree is drawn with branches.

use vstd::prelude::*;
use vstd::string::StringExecFns;

verus! {

/// One layer of indentation.
#[derive(Debug)]
struct Token {
    /// The node of this layer has a sibling after it.
    siblings: bool,
    /// The line drawn belongs to a node below the node of this layer.
    children: bool,
}

/// What one layer draws.
pub open spec fn glyph(siblings: bool, children: bool) -> Seq<char> {
    match (siblings, children) {
        (true, true) => "│   "@,
        (true, false) => "├── "@,
        (false, true) => "    "@,
        (false, false) => "└── "@,
    }
}

/// What a run of layers draws, the outermost first.
pub open spec fn glyphs(layers: Seq<(bool, bool)>) -> Seq<char>
    decreases layers.len(),
{
    if layers.len() == 0 {
        Seq::empty()
    } else {
        glyphs(layers.drop_last()) + glyph(layers.last().0, layers.last().1)
    }
}

impl Token {
    /// The layer as a pair.
    spec fn pair(self) -> (bool, bool) {
        (self.siblings, self.children)
    }

    /// A layer for a node itself.
    fn new(siblings: bool) -> (token: Self)
        ensures
            token.pair() == (siblings, false),
    {
        Token { siblings, children: false }
    }

    /// From now on the lines drawn belong to nodes below.
    fn set_children(&mut self)
        ensures
            final(self).pair() == (old(self).siblings, true),
    {
        self.children = true;
    }

    /// What this layer draws.
    fn text(&self) -> (s: &'static str)
        ensures
            s@ == glyph(self.siblings, self.children),
    {
        match (self.siblings, self.children) {
            (true, true) => "│   ",
            (true, false) => "├── ",
            (false, true) => "    ",
            (false, false) => "└── ",
        }
    }
}

/// The layers of indentation on the way down a tree, the outermost first.
#[derive(Debug)]
pub struct Indentation {
    tokens: Vec<Token>,
    ignore_root: bool,
}

/// The layers as pairs: whether the node of the layer has a sibling after it,
/// and whether the layer stands above the node being drawn.
pub struct IndentationView {
    pub layers: Seq<(bool, bool)>,
    pub ignore_root: bool,
}

impl View for Indentation {
    type V = IndentationView;

    closed spec fn view(&self) -> IndentationView {
        IndentationView {
            layers: Seq::new(self.tokens@.len(), |i: int| self.tokens@[i].pair()),
            ignore_root: self.ignore_root,
        }
    }
}

impl IndentationView {
    /// One layer more: the layer that was innermost now stands above the node
    /// being drawn.
    pub open spec fn indent(self, siblings: bool) -> Self {
        let outer = if self.layers.len() > 0 {
            self.layers.update(self.layers.len() - 1, (self.layers.last().0, true))
        } else {
            self.layers
        };
        IndentationView { layers: outer.push((siblings, false)), ..self }
    }

    /// One layer less, if there is any.
    pub open spec fn deindent(self) -> Self {
        if self.layers.len() > 0 {
            IndentationView { layers: self.layers.drop_last(), ..self }
        } else {
            self
        }
    }

    /// What is drawn in front of a line: every layer, but for the outermost
    /// where the root is left out.
    pub open spec fn text(self) -> Seq<char> {
        glyphs(
            self.layers.skip(
                if self.ignore_root {
                    1
                } else {
                    0
                },
            ),
        )
    }
}

impl Indentation {
    /// No indentation yet.
    pub fn new(ignore_root: bool) -> (r: Self)
        ensures
            r@.layers.len() == 0,
            r@.ignore_root == ignore_root,
    {
        Indentation { tokens: Vec::new(), ignore_root }
    }

    /// Adds a layer for a node that has (or has not) a sibling after it.
    pub fn indent(&mut self, siblings: bool) -> (r: &mut Self)
        ensures
            r@ == old(self)@.indent(siblings),
            *final(self) == *final(r),
    {
        let len: usize = self.tokens.len();
        if len > 0 {
            self.tokens[len - 1].set_children();
        }
        self.tokens.push(Token::new(siblings));
        proof {
            assert(self@.layers =~= old(self)@.indent(siblings).layers);
        }
        self
    }

    /// Takes the innermost layer away.
    pub fn deindent(&mut self) -> (r: &mut Self)
        ensures
            r@ == old(self)@.deindent(),
            *final(self) == *final(r),
    {
        self.tokens.pop();
        proof {
            assert(self@.layers =~= old(self)@.deindent().layers);
        }
        self
    }

    /// The text in front of a line. Where the root is left out there must be a
    /// layer to leave out.
    pub fn to_string(&self) -> (s: String)
        requires
            self@.ignore_root ==> self@.layers.len() >= 1,
        ensures
            s@ == self@.text(),
    {
        let first: usize = if self.ignore_root {
            1
        } else {
            0
        };
        let ghost shown = self@.layers.skip(first as int);
        let mut out = String::new();
        let mut i: usize = first;
        proof {
            assert(shown.take(0) =~= Seq::empty());
        }
        while i < self.tokens.len()
            invariant
                first <= i <= self.tokens@.len(),
                shown == self@.layers.skip(first as int),
                out@ == glyphs(shown.take(i - first)),
            decreases self.tokens@.len() - i,
        {
            out.append(self.tokens[i].text());
            proof {
                let now = shown.take(i + 1 - first);
                assert(now.drop_last() =~= shown.take(i - first));
                assert(now.last() == self.tokens@[i as int].pair());
            }
            i = i + 1;
        }
        proof {
            assert(shown.take(i - first) =~= shown);
        }
        out
    }
}

} // verus!
