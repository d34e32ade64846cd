//! A graph description in the DOT language, built node by node and edge by
//! edge and written out as text.

use vstd::prelude::*;
use vstd::string::StringExecFns;
use crate::text::{decimal, push_decimal};

verus! {

/// The fill colour of a drawn node.
#[derive(Clone, Copy, Debug, PartialEq, Eq, Structural)]
pub enum DotNodeColor {
    Red,
    Black,
    Green,
}

/// A drawn node: its label and its fill colour. Its number is its place
/// among the nodes.
pub struct DotNode {
    pub label: String,
    pub color: DotNodeColor,
}

/// An edge between two drawn nodes, given by their numbers.
pub struct DotEdge {
    pub src_id: usize,
    pub dest_id: usize,
}

/// A graph description under construction, and the name of the file that it
/// is meant for.
pub struct Dotfile {
    filename: String,
    nodes: Vec<DotNode>,
    edges: Vec<DotEdge>,
}

/// The name that DOT has for a fill colour.
pub open spec fn color_name(color: DotNodeColor) -> Seq<char> {
    match color {
        DotNodeColor::Red => "red"@,
        DotNodeColor::Black => "black"@,
        DotNodeColor::Green => "darkgreen"@,
    }
}

/// The line that declares node number `idx`.
pub open spec fn node_line(idx: nat, node: (Seq<char>, DotNodeColor)) -> Seq<char> {
    "\t "@ + decimal(idx) + " [label=\""@ + node.0 + "\", color="@ + color_name(node.1)
        + ", style=filled, fontcolor=white];\n"@
}

/// The line that declares an edge.
pub open spec fn edge_line(edge: (int, int)) -> Seq<char> {
    "\t "@ + decimal(edge.0 as nat) + " -- "@ + decimal(edge.1 as nat) + ";\n"@
}

/// The lines of the first `n` nodes.
pub open spec fn node_lines(nodes: Seq<(Seq<char>, DotNodeColor)>, n: nat) -> Seq<char>
    decreases n,
{
    if n == 0 {
        Seq::empty()
    } else {
        node_lines(nodes, (n - 1) as nat) + node_line((n - 1) as nat, nodes[n - 1])
    }
}

/// The lines of the first `n` edges.
pub open spec fn edge_lines(edges: Seq<(int, int)>, n: nat) -> Seq<char>
    decreases n,
{
    if n == 0 {
        Seq::empty()
    } else {
        edge_lines(edges, (n - 1) as nat) + edge_line(edges[n - 1])
    }
}

impl Dotfile {
    /// The name of the file that the description is meant for.
    pub closed spec fn name(&self) -> Seq<char> {
        self.filename@
    }

    /// The nodes so far, each with its label and colour, in the order in
    /// which they were added; a node's number is its place here.
    pub closed spec fn nodes(&self) -> Seq<(Seq<char>, DotNodeColor)> {
        Seq::new(self.nodes@.len(), |i: int| (self.nodes@[i].label@, self.nodes@[i].color))
    }

    /// The edges so far, in the order in which they were added.
    pub closed spec fn edges(&self) -> Seq<(int, int)> {
        Seq::new(
            self.edges@.len(),
            |i: int| (self.edges@[i].src_id as int, self.edges@[i].dest_id as int),
        )
    }

    /// The description as DOT text: an undirected graph with one line for
    /// each node and one for each edge.
    pub open spec fn text(&self) -> Seq<char> {
        "graph {\n"@ + node_lines(self.nodes(), self.nodes().len()) + edge_lines(
            self.edges(),
            self.edges().len(),
        ) + "}\n"@
    }

    /// An empty description meant for the file `filename`.
    pub fn new(filename: &str) -> (file: Self)
        ensures
            file.name() == filename@,
            file.nodes() == Seq::<(Seq<char>, DotNodeColor)>::empty(),
            file.edges() == Seq::<(int, int)>::empty(),
    {
        let file = Dotfile { filename: String::from_str(filename), nodes: Vec::new(), edges: Vec::new() };
        proof {
            assert(file.nodes() =~= Seq::<(Seq<char>, DotNodeColor)>::empty());
            assert(file.edges() =~= Seq::<(int, int)>::empty());
        }
        file
    }

    /// Adds a node with the label `key` and the colour `node_color`, and
    /// returns its number.
    pub fn add_node(&mut self, key: &str, node_color: DotNodeColor) -> (idx: usize)
        ensures
            idx == old(self).nodes().len(),
            final(self).nodes() == old(self).nodes().push((key@, node_color)),
            final(self).edges() == old(self).edges(),
            final(self).name() == old(self).name(),
    {
        let current_len: usize = self.nodes.len();
        self.nodes.push(DotNode { label: String::from_str(key), color: node_color });
        proof {
            assert(final(self).nodes() =~= old(self).nodes().push((key@, node_color)));
            assert(final(self).edges() =~= old(self).edges());
        }
        current_len
    }

    /// Adds an edge from node number `key1` to node number `key2`.
    pub fn add_edge(&mut self, key1: usize, key2: usize)
        ensures
            final(self).edges() == old(self).edges().push((key1 as int, key2 as int)),
            final(self).nodes() == old(self).nodes(),
            final(self).name() == old(self).name(),
    {
        self.edges.push(DotEdge { src_id: key1, dest_id: key2 });
        proof {
            assert(final(self).edges() =~= old(self).edges().push((key1 as int, key2 as int)));
            assert(final(self).nodes() =~= old(self).nodes());
        }
    }

    /// The name of the file that the description is meant for.
    pub fn file_name(&self) -> (name: &str)
        ensures
            name@ == self.name(),
    {
        self.filename.as_str()
    }

    /// The number of nodes added so far.
    pub fn node_count(&self) -> (count: usize)
        ensures
            count == self.nodes().len(),
    {
        self.nodes.len()
    }

    /// The number of edges added so far.
    pub fn edge_count(&self) -> (count: usize)
        ensures
            count == self.edges().len(),
    {
        self.edges.len()
    }

    /// The name that DOT has for a fill colour.
    fn color_str(color: DotNodeColor) -> (name: &'static str)
        ensures
            name@ == color_name(color),
    {
        match color {
            DotNodeColor::Red => "red",
            DotNodeColor::Black => "black",
            DotNodeColor::Green => "darkgreen",
        }
    }

    /// The description written out as DOT text.
    pub fn render(&self) -> (out: String)
        ensures
            out@ == self.text(),
    {
        let mut out = String::new();
        out.append("graph {\n");
        let mut i: usize = 0;
        while i < self.nodes.len()
            invariant
                i <= self.nodes@.len(),
                out@ == "graph {\n"@ + node_lines(self.nodes(), i as nat),
            decreases self.nodes@.len() - i,
        {
            let ghost before = out@;
            let node = &self.nodes[i];
            out.append("\t ");
            push_decimal(&mut out, i as u64);
            out.append(" [label=\"");
            out.append(node.label.as_str());
            out.append("\", color=");
            out.append(Self::color_str(node.color));
            out.append(", style=filled, fontcolor=white];\n");
            proof {
                assert(self.nodes()[i as int] == (node.label@, node.color));
                assert(out@ =~= before + node_line(i as nat, self.nodes()[i as int]));
                assert(out@ =~= "graph {\n"@ + node_lines(self.nodes(), (i + 1) as nat));
            }
            i += 1;
        }
        let ghost head = out@;
        let mut j: usize = 0;
        while j < self.edges.len()
            invariant
                j <= self.edges@.len(),
                out@ == head + edge_lines(self.edges(), j as nat),
            decreases self.edges@.len() - j,
        {
            let ghost before = out@;
            let edge = &self.edges[j];
            out.append("\t ");
            push_decimal(&mut out, edge.src_id as u64);
            out.append(" -- ");
            push_decimal(&mut out, edge.dest_id as u64);
            out.append(";\n");
            proof {
                assert(self.edges()[j as int] == (edge.src_id as int, edge.dest_id as int));
                assert(out@ =~= before + edge_line(self.edges()[j as int]));
                assert(out@ =~= head + edge_lines(self.edges(), (j + 1) as nat));
            }
            j += 1;
        }
        out.append("}\n");
        out
    }
}

} // verus!
