//! Building a graph from the lines of an edge list.

use vstd::prelude::*;
use crate::graph::{Edge, Graph};
use crate::registry::register_model;
use crate::text::{chars_of, first_two_tokens, is_skipped, skipped, tokens};

verus! {

/// Why an edge list could not be loaded.
#[derive(Clone, Copy, Debug, PartialEq, Eq, Structural)]
pub enum LoadError {
    /// The line with this index (from 0) is neither blank nor a comment, and
    /// has fewer than two tokens.
    MalformedLine(usize),
}

/// A line that should carry an edge and does not.
pub open spec fn is_malformed(line: Seq<char>) -> bool {
    !is_skipped(line) && tokens(line).len() < 2
}

/// The text of each line.
pub open spec fn texts(lines: Seq<String>) -> Seq<Seq<char>> {
    lines.map_values(|s: String| s@)
}

/// The labels and the edges after loading `lines`: each line that carries an
/// edge registers its first token, then its second, and adds the edge between
/// them unless they are the same node.
pub open spec fn load_model(lines: Seq<Seq<char>>) -> (Seq<Seq<char>>, Seq<Edge>)
    decreases lines.len(),
{
    if lines.len() == 0 {
        (Seq::empty(), Seq::empty())
    } else {
        let (labels, edges) = load_model(lines.drop_last());
        let line = lines.last();
        if is_skipped(line) || tokens(line).len() < 2 {
            (labels, edges)
        } else {
            let (l1, from) = register_model(labels, tokens(line)[0]);
            let (l2, to) = register_model(l1, tokens(line)[1]);
            if from == to {
                (l2, edges)
            } else {
                (l2, edges.push(Edge(from as usize, to as usize)))
            }
        }
    }
}

impl Graph {
    /// Builds the graph of an edge list, one edge per line; fails on the first
    /// line that should carry an edge and does not.
    pub fn read_lines(lines: &Vec<String>) -> (r: Result<Graph, LoadError>)
        ensures
            r is Ok <==> forall|j: int| 0 <= j < lines@.len() ==> !is_malformed(texts(lines@)[j]),
            r matches Ok(g) ==> g.wf() && g.labels() == load_model(texts(lines@)).0
                && g.edge_seq() == load_model(texts(lines@)).1,
            r matches Ok(g) ==> forall|k: int|
                0 <= k < g.edge_seq().len() ==> g.edge_seq()[k].0 != g.edge_seq()[k].1,
            r matches Err(LoadError::MalformedLine(k)) ==> k < lines@.len() && is_malformed(
                texts(lines@)[k as int],
            ) && forall|j: int| 0 <= j < k ==> !is_malformed(texts(lines@)[j]),
    {
        let ghost ls = texts(lines@);
        let mut g = Graph::new();
        let mut i: usize = 0;
        assert(ls.take(0) =~= Seq::<Seq<char>>::empty());
        while i < lines.len()
            invariant
                0 <= i <= lines@.len(),
                ls == texts(lines@),
                g.wf(),
                g.labels() == load_model(ls.take(i as int)).0,
                g.edge_seq() == load_model(ls.take(i as int)).1,
                forall|j: int| 0 <= j < i ==> !is_malformed(ls[j]),
            decreases lines@.len() - i,
        {
            let line = lines[i].as_str();
            assert(line@ == ls[i as int]);
            assert(ls.take(i + 1).drop_last() =~= ls.take(i as int));
            assert(ls.take(i + 1).last() == ls[i as int]);
            let chars = chars_of(line);
            if !skipped(&chars) {
                match first_two_tokens(line) {
                    None => {
                        return Err(LoadError::MalformedLine(i));
                    },
                    Some((a, b)) => {
                        let from = g.register_node(a.as_str());
                        let to = g.register_node(b.as_str());
                        g.add_edge(from, to);
                    },
                }
            }
            i = i + 1;
        }
        assert(ls.take(i as int) =~= ls);
        proof {
            g.lemma_wf();
        }
        Ok(g)
    }
}

} // verus!
