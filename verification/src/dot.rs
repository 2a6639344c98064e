//! Graph descriptions in the DOT language, written by `petgraph`.
//!
//! A canvas is a plain `petgraph` graph whose node and edge weights are the
//! labels to print. What is said here about drawing on it and about the text
//! it gives is taken on trust from `petgraph`'s source.

use petgraph::dot::Config;
use petgraph::dot::Dot;
use petgraph::graph::Graph;
use petgraph::graph::NodeIndex;
use petgraph::Directed;
use std::fmt::Debug;
use vstd::prelude::*;

verus! {

#[verifier::external_type_specification]
#[verifier::external_body]
#[verifier::reject_recursive_types(N)]
#[verifier::reject_recursive_types(E)]
#[verifier::reject_recursive_types(Ty)]
#[verifier::reject_recursive_types(Ix)]
pub struct ExGraph<N, E, Ty, Ix>(Graph<N, E, Ty, Ix>);

/// The labels of the nodes on a canvas, by node index.
pub uninterp spec fn canvas_labels(g: Graph<String, String, Directed, usize>) -> Seq<Seq<char>>;

/// The arrows on a canvas, by edge index, each as `(from, to, label)`.
pub uninterp spec fn canvas_arrows(g: Graph<String, String, Directed, usize>) -> Seq<
    (int, int, Seq<char>),
>;

/// The DOT statements for nodes with the given labels, numbered from zero,
/// and for the given arrows between them: the body of a `digraph` block,
/// without the block around it.
pub uninterp spec fn dot_body(labels: Seq<Seq<char>>, arrows: Seq<(int, int, Seq<char>)>) -> Seq<
    char,
>;

/// `Graph::default`: a canvas with nothing on it.
#[verifier::external_body]
fn blank_canvas() -> (g: Graph<String, String, Directed, usize>)
    ensures
        canvas_labels(g) == Seq::<Seq<char>>::empty(),
        canvas_arrows(g) == Seq::<(int, int, Seq<char>)>::empty(),
{
    Graph::default()
}

/// `Graph::add_node`: puts a node behind the others and gives its index.
#[verifier::external_body]
fn draw_node(g: &mut Graph<String, String, Directed, usize>, label: String) -> (i: usize)
    ensures
        i == canvas_labels(*old(g)).len(),
        canvas_labels(*final(g)) == canvas_labels(*old(g)).push(label@),
        canvas_arrows(*final(g)) == canvas_arrows(*old(g)),
{
    g.add_node(label).index()
}

/// `Graph::add_edge`: puts an edge behind the others. The call panics where
/// an end is no node, which the precondition rules out.
#[verifier::external_body]
fn draw_arrow(g: &mut Graph<String, String, Directed, usize>, a: usize, b: usize, label: String)
    requires
        a < canvas_labels(*old(g)).len(),
        b < canvas_labels(*old(g)).len(),
    ensures
        canvas_labels(*final(g)) == canvas_labels(*old(g)),
        canvas_arrows(*final(g)) == canvas_arrows(*old(g)).push((a as int, b as int, label@)),
{
    g.add_edge(NodeIndex::new(a), NodeIndex::new(b), label);
}

/// `Dot::with_config` with `Config::GraphContentOnly`, printed: one
/// statement for each node and then one for each edge, in the order of their
/// indices, with the labels escaped for DOT.
#[verifier::external_body]
fn canvas_text(g: &Graph<String, String, Directed, usize>) -> (text: String)
    ensures
        text@ == dot_body(canvas_labels(*g), canvas_arrows(*g)),
{
    format!("{}", Dot::with_config(g, &[Config::GraphContentOnly]))
}

/// What the `Debug` formatting of a value prints. Nothing is known of the
/// text: it is whatever the type's implementation writes.
#[verifier::external_body]
pub(crate) fn debug_text<T: Debug>(value: &T) -> (text: String) {
    format!("{:?}", value)
}

/// The labels of a list, as sequences of characters.
pub open spec fn label_views(labels: Seq<String>) -> Seq<Seq<char>> {
    labels.map_values(|l: String| l@)
}

/// The arrows of a list, with integers for the indices and sequences of
/// characters for the labels.
pub open spec fn arrow_views(arrows: Seq<(usize, usize, String)>) -> Seq<(int, int, Seq<char>)> {
    arrows.map_values(|a: (usize, usize, String)| (a.0 as int, a.1 as int, a.2@))
}

/// Whether both ends of every arrow are among `count` nodes.
pub open spec fn arrows_fit(arrows: Seq<(usize, usize, String)>, count: nat) -> bool {
    forall|i: int| 0 <= i < arrows.len() ==> (#[trigger] arrows[i]).0 < count && arrows[i].1 < count
}

/// The DOT body for nodes with the given labels and arrows between them.
pub fn dot_of(labels: &Vec<String>, arrows: &Vec<(usize, usize, String)>) -> (text: String)
    requires
        arrows_fit(arrows@, labels@.len()),
    ensures
        text@ == dot_body(label_views(labels@), arrow_views(arrows@)),
{
    let mut canvas = blank_canvas();
    let mut i: usize = 0;
    while i < labels.len()
        invariant
            i <= labels@.len(),
            canvas_labels(canvas) == label_views(labels@).take(i as int),
            canvas_arrows(canvas) == Seq::<(int, int, Seq<char>)>::empty(),
        decreases labels@.len() - i,
    {
        let label = labels[i].clone();
        draw_node(&mut canvas, label);
        proof {
            assert(label_views(labels@).take(i + 1) =~= label_views(labels@).take(i as int).push(
                labels@[i as int]@,
            ));
        }
        i += 1;
    }
    proof {
        assert(label_views(labels@).take(labels@.len() as int) =~= label_views(labels@));
    }
    let mut j: usize = 0;
    while j < arrows.len()
        invariant
            j <= arrows@.len(),
            arrows_fit(arrows@, labels@.len()),
            canvas_labels(canvas) == label_views(labels@),
            canvas_arrows(canvas) == arrow_views(arrows@).take(j as int),
        decreases arrows@.len() - j,
    {
        let label = arrows[j].2.clone();
        draw_arrow(&mut canvas, arrows[j].0, arrows[j].1, label);
        proof {
            assert(arrow_views(arrows@).take(j + 1) =~= arrow_views(arrows@).take(j as int).push(
                (arrows@[j as int].0 as int, arrows@[j as int].1 as int, arrows@[j as int].2@),
            ));
        }
        j += 1;
    }
    proof {
        assert(arrow_views(arrows@).take(arrows@.len() as int) =~= arrow_views(arrows@));
    }
    canvas_text(&canvas)
}

} // verus!
