//! Worked examples: small graphs, each with the shortest paths from its
//! node "A" to every node.

use crate::adjacency::{map_add_edge, WeightMap};
use crate::graph_type::{named_paths_view, GraphMap, NamedPathView, ShortestPathNamed};
use crate::names::names_view;
use vstd::prelude::*;

verus! {

/// An undirected edge of a worked example: its two ends and its weight.
pub type SampleEdge = (&'static str, &'static str, u32);

/// A shortest path of a worked example: its two ends, its distance and the
/// nodes on the way.
pub type SamplePath = (&'static str, &'static str, u32, Vec<&'static str>);

/// A shortest path of a worked example as a mathematical value.
pub type SamplePathSpec = (&'static str, &'static str, u32, Seq<&'static str>);

/// The mapping that comes of adding the edges one after the other to the
/// empty mapping.
pub open spec fn graph_of_edges(edges: Seq<SampleEdge>) -> WeightMap
    decreases edges.len(),
{
    if edges.len() == 0 {
        Map::empty()
    } else {
        map_add_edge(
            graph_of_edges(edges.drop_last()),
            edges.last().0@,
            edges.last().1@,
            edges.last().2,
        )
    }
}

/// The names of a sequence of string slices.
pub open spec fn slices_view(names: Seq<&'static str>) -> Seq<Seq<char>> {
    Seq::new(names.len(), |k: int| names[k]@)
}

/// The named path that a tuple stands for.
pub open spec fn sample_path_view(path: SamplePathSpec) -> NamedPathView {
    NamedPathView { from: path.0@, to: path.1@, distance: path.2, path: slices_view(path.3) }
}

/// The named paths that a sequence of tuples stands for.
pub open spec fn sample_paths_view(paths: Seq<SamplePathSpec>) -> Seq<NamedPathView> {
    Seq::new(paths.len(), |i: int| sample_path_view(paths[i]))
}

/// The tuples that a vector holds, as mathematical values.
pub open spec fn sample_tuples_view(paths: Seq<SamplePath>) -> Seq<SamplePathSpec> {
    Seq::new(paths.len(), |i: int| (paths[i].0, paths[i].1, paths[i].2, paths[i].3@))
}

/// Builds the graph of the given undirected edges.
pub fn graph_from_edges(edges: &Vec<SampleEdge>) -> (graph: GraphMap)
    ensures
        graph@ == graph_of_edges(edges@),
{
    let mut graph = GraphMap::new();
    let mut index: usize = 0;
    assert(edges@.take(0) =~= Seq::empty());
    while index < edges.len()
        invariant
            index <= edges.len(),
            graph@ == graph_of_edges(edges@.take(index as int)),
        decreases edges.len() - index,
    {
        let edge = edges[index];
        graph.add_edge(edge.0, edge.1, edge.2);
        proof {
            assert(edges@.take(index + 1).drop_last() =~= edges@.take(index as int));
        }
        index += 1;
    }
    assert(edges@.take(edges.len() as int) =~= edges@);
    graph
}

/// Builds the named paths that the given tuples stand for.
pub fn paths_from_tuples(paths: &Vec<SamplePath>) -> (result: Vec<ShortestPathNamed>)
    ensures
        named_paths_view(result@) == sample_paths_view(sample_tuples_view(paths@)),
{
    let mut result: Vec<ShortestPathNamed> = Vec::with_capacity(paths.len());
    let mut index: usize = 0;
    while index < paths.len()
        invariant
            index <= paths.len(),
            result.len() == index,
            forall|i: int|
                0 <= i < index ==> (#[trigger] result@[i])@ == sample_path_view(
                    sample_tuples_view(paths@)[i],
                ),
        decreases paths.len() - index,
    {
        let tuple = &paths[index];
        let mut path: Vec<String> = Vec::with_capacity(tuple.3.len());
        let mut step: usize = 0;
        while step < tuple.3.len()
            invariant
                step <= tuple.3.len(),
                path.len() == step,
                forall|k: int| 0 <= k < step ==> (#[trigger] path@[k])@ == tuple.3@[k]@,
            decreases tuple.3.len() - step,
        {
            path.push(tuple.3[step].to_owned());
            step += 1;
        }
        assert(names_view(path@) =~= slices_view(tuple.3@));
        result.push(
            ShortestPathNamed {
                from: tuple.0.to_owned(),
                to: tuple.1.to_owned(),
                distance: tuple.2,
                path,
            },
        );
        index += 1;
    }
    assert(named_paths_view(result@) =~= sample_paths_view(sample_tuples_view(paths@)));
    result
}

/// The edges of the first example, a graph of nine nodes.
pub open spec fn sample1_edges() -> Seq<SampleEdge> {
    seq![
        ("A", "B", 4u32),
        ("A", "H", 8u32),
        ("B", "C", 8u32),
        ("B", "H", 11u32),
        ("C", "D", 7u32),
        ("C", "I", 2u32),
        ("C", "F", 3u32),
        ("D", "E", 9u32),
        ("D", "F", 14u32),
        ("E", "F", 10u32),
        ("F", "G", 2u32),
        ("G", "H", 1u32),
        ("G", "I", 6u32),
        ("H", "I", 7u32),
    ]
}

/// The shortest paths from "A" in the first example.
pub open spec fn sample1_paths() -> Seq<SamplePathSpec> {
    seq![
        ("A", "A", 0u32, seq!["A", "A"]),
        ("A", "B", 4u32, seq!["A", "B"]),
        ("A", "C", 12u32, seq!["A", "B", "C"]),
        ("A", "D", 19u32, seq!["A", "B", "C", "D"]),
        ("A", "E", 21u32, seq!["A", "H", "G", "F", "E"]),
        ("A", "F", 11u32, seq!["A", "H", "G", "F"]),
        ("A", "G", 9u32, seq!["A", "H", "G"]),
        ("A", "H", 8u32, seq!["A", "H"]),
        ("A", "I", 14u32, seq!["A", "B", "C", "I"]),
    ]
}

/// The first example: its graph, and the shortest path from "A" to each
/// of its nodes.
pub fn sample1() -> (sample: (GraphMap, Vec<ShortestPathNamed>))
    ensures
        sample.0@ == graph_of_edges(sample1_edges()),
        named_paths_view(sample.1@) == sample_paths_view(sample1_paths()),
{
    let input_graph_edges: Vec<SampleEdge> = vec![
        ("A", "B", 4),
        ("A", "H", 8),
        ("B", "C", 8),
        ("B", "H", 11),
        ("C", "D", 7),
        ("C", "I", 2),
        ("C", "F", 3),
        ("D", "E", 9),
        ("D", "F", 14),
        ("E", "F", 10),
        ("F", "G", 2),
        ("G", "H", 1),
        ("G", "I", 6),
        ("H", "I", 7),
    ];
    let graph = graph_from_edges(&input_graph_edges);
    let paths: Vec<SamplePath> = vec![
        ("A", "A", 0, vec!["A", "A"]),
        ("A", "B", 4, vec!["A", "B"]),
        ("A", "C", 12, vec!["A", "B", "C"]),
        ("A", "D", 19, vec!["A", "B", "C", "D"]),
        ("A", "E", 21, vec!["A", "H", "G", "F", "E"]),
        ("A", "F", 11, vec!["A", "H", "G", "F"]),
        ("A", "G", 9, vec!["A", "H", "G"]),
        ("A", "H", 8, vec!["A", "H"]),
        ("A", "I", 14, vec!["A", "B", "C", "I"]),
    ];
    let expected_shortest_paths = paths_from_tuples(&paths);
    proof {
        assert(sample_tuples_view(paths@)[0].3 =~= sample1_paths()[0].3);
        assert(sample_tuples_view(paths@)[1].3 =~= sample1_paths()[1].3);
        assert(sample_tuples_view(paths@)[2].3 =~= sample1_paths()[2].3);
        assert(sample_tuples_view(paths@)[3].3 =~= sample1_paths()[3].3);
        assert(sample_tuples_view(paths@)[4].3 =~= sample1_paths()[4].3);
        assert(sample_tuples_view(paths@)[5].3 =~= sample1_paths()[5].3);
        assert(sample_tuples_view(paths@)[6].3 =~= sample1_paths()[6].3);
        assert(sample_tuples_view(paths@)[7].3 =~= sample1_paths()[7].3);
        assert(sample_tuples_view(paths@)[8].3 =~= sample1_paths()[8].3);
        assert(sample_tuples_view(paths@) =~= sample1_paths());
    }
    (graph, expected_shortest_paths)
}

/// The edges of the second example, a graph of five nodes.
pub open spec fn sample2_edges() -> Seq<SampleEdge> {
    seq![
        ("A", "B", 6u32),
        ("A", "D", 1u32),
        ("B", "D", 2u32),
        ("B", "E", 2u32),
        ("B", "C", 5u32),
        ("C", "E", 5u32),
        ("D", "E", 1u32),
    ]
}

/// The shortest paths from "A" in the second example.
pub open spec fn sample2_paths() -> Seq<SamplePathSpec> {
    seq![
        ("A", "A", 0u32, seq!["A", "A"]),
        ("A", "B", 3u32, seq!["A", "D", "B"]),
        ("A", "C", 7u32, seq!["A", "D", "E", "C"]),
        ("A", "D", 1u32, seq!["A", "D"]),
        ("A", "E", 2u32, seq!["A", "D", "E"]),
    ]
}

/// The second example: its graph, and the shortest path from "A" to each
/// of its nodes.
pub fn sample2() -> (sample: (GraphMap, Vec<ShortestPathNamed>))
    ensures
        sample.0@ == graph_of_edges(sample2_edges()),
        named_paths_view(sample.1@) == sample_paths_view(sample2_paths()),
{
    let input_graph_edges: Vec<SampleEdge> = vec![
        ("A", "B", 6),
        ("A", "D", 1),
        ("B", "D", 2),
        ("B", "E", 2),
        ("B", "C", 5),
        ("C", "E", 5),
        ("D", "E", 1),
    ];
    let graph = graph_from_edges(&input_graph_edges);
    let paths: Vec<SamplePath> = vec![
        ("A", "A", 0, vec!["A", "A"]),
        ("A", "B", 3, vec!["A", "D", "B"]),
        ("A", "C", 7, vec!["A", "D", "E", "C"]),
        ("A", "D", 1, vec!["A", "D"]),
        ("A", "E", 2, vec!["A", "D", "E"]),
    ];
    let expected_shortest_paths = paths_from_tuples(&paths);
    proof {
        assert(sample_tuples_view(paths@)[0].3 =~= sample2_paths()[0].3);
        assert(sample_tuples_view(paths@)[1].3 =~= sample2_paths()[1].3);
        assert(sample_tuples_view(paths@)[2].3 =~= sample2_paths()[2].3);
        assert(sample_tuples_view(paths@)[3].3 =~= sample2_paths()[3].3);
        assert(sample_tuples_view(paths@)[4].3 =~= sample2_paths()[4].3);
        assert(sample_tuples_view(paths@) =~= sample2_paths());
    }
    (graph, expected_shortest_paths)
}

/// The edges of the third example, a graph of six nodes.
pub open spec fn sample3_edges() -> Seq<SampleEdge> {
    seq![
        ("A", "B", 4u32),
        ("A", "C", 5u32),
        ("B", "C", 11u32),
        ("B", "D", 9u32),
        ("B", "E", 7u32),
        ("C", "E", 3u32),
        ("D", "E", 13u32),
        ("D", "F", 2u32),
        ("E", "F", 6u32),
    ]
}

/// The shortest paths from "A" in the third example.
pub open spec fn sample3_paths() -> Seq<SamplePathSpec> {
    seq![
        ("A", "A", 0u32, seq!["A", "A"]),
        ("A", "B", 4u32, seq!["A", "B"]),
        ("A", "C", 5u32, seq!["A", "C"]),
        ("A", "D", 13u32, seq!["A", "B", "D"]),
        ("A", "E", 8u32, seq!["A", "C", "E"]),
        ("A", "F", 14u32, seq!["A", "C", "E", "F"]),
    ]
}

/// The third example: its graph, and the shortest path from "A" to each
/// of its nodes.
pub fn sample3() -> (sample: (GraphMap, Vec<ShortestPathNamed>))
    ensures
        sample.0@ == graph_of_edges(sample3_edges()),
        named_paths_view(sample.1@) == sample_paths_view(sample3_paths()),
{
    let input_graph_edges: Vec<SampleEdge> = vec![
        ("A", "B", 4),
        ("A", "C", 5),
        ("B", "C", 11),
        ("B", "D", 9),
        ("B", "E", 7),
        ("C", "E", 3),
        ("D", "E", 13),
        ("D", "F", 2),
        ("E", "F", 6),
    ];
    let graph = graph_from_edges(&input_graph_edges);
    let paths: Vec<SamplePath> = vec![
        ("A", "A", 0, vec!["A", "A"]),
        ("A", "B", 4, vec!["A", "B"]),
        ("A", "C", 5, vec!["A", "C"]),
        ("A", "D", 13, vec!["A", "B", "D"]),
        ("A", "E", 8, vec!["A", "C", "E"]),
        ("A", "F", 14, vec!["A", "C", "E", "F"]),
    ];
    let expected_shortest_paths = paths_from_tuples(&paths);
    proof {
        assert(sample_tuples_view(paths@)[0].3 =~= sample3_paths()[0].3);
        assert(sample_tuples_view(paths@)[1].3 =~= sample3_paths()[1].3);
        assert(sample_tuples_view(paths@)[2].3 =~= sample3_paths()[2].3);
        assert(sample_tuples_view(paths@)[3].3 =~= sample3_paths()[3].3);
        assert(sample_tuples_view(paths@)[4].3 =~= sample3_paths()[4].3);
        assert(sample_tuples_view(paths@)[5].3 =~= sample3_paths()[5].3);
        assert(sample_tuples_view(paths@) =~= sample3_paths());
    }
    (graph, expected_shortest_paths)
}

/// The edges of the fourth example, a graph of six nodes.
pub open spec fn sample4_edges() -> Seq<SampleEdge> {
    seq![
        ("A", "B", 7u32),
        ("A", "C", 9u32),
        ("A", "F", 14u32),
        ("B", "C", 10u32),
        ("B", "D", 15u32),
        ("C", "D", 11u32),
        ("C", "F", 2u32),
        ("D", "E", 6u32),
        ("E", "F", 9u32),
    ]
}

/// The shortest paths from "A" in the fourth example.
pub open spec fn sample4_paths() -> Seq<SamplePathSpec> {
    seq![
        ("A", "A", 0u32, seq!["A", "A"]),
        ("A", "B", 7u32, seq!["A", "B"]),
        ("A", "C", 9u32, seq!["A", "C"]),
        ("A", "D", 20u32, seq!["A", "C", "D"]),
        ("A", "E", 20u32, seq!["A", "C", "F", "E"]),
        ("A", "F", 11u32, seq!["A", "C", "F"]),
    ]
}

/// The fourth example: its graph, and the shortest path from "A" to each
/// of its nodes.
pub fn sample4() -> (sample: (GraphMap, Vec<ShortestPathNamed>))
    ensures
        sample.0@ == graph_of_edges(sample4_edges()),
        named_paths_view(sample.1@) == sample_paths_view(sample4_paths()),
{
    let input_graph_edges: Vec<SampleEdge> = vec![
        ("A", "B", 7),
        ("A", "C", 9),
        ("A", "F", 14),
        ("B", "C", 10),
        ("B", "D", 15),
        ("C", "D", 11),
        ("C", "F", 2),
        ("D", "E", 6),
        ("E", "F", 9),
    ];
    let graph = graph_from_edges(&input_graph_edges);
    let paths: Vec<SamplePath> = vec![
        ("A", "A", 0, vec!["A", "A"]),
        ("A", "B", 7, vec!["A", "B"]),
        ("A", "C", 9, vec!["A", "C"]),
        ("A", "D", 20, vec!["A", "C", "D"]),
        ("A", "E", 20, vec!["A", "C", "F", "E"]),
        ("A", "F", 11, vec!["A", "C", "F"]),
    ];
    let expected_shortest_paths = paths_from_tuples(&paths);
    proof {
        assert(sample_tuples_view(paths@)[0].3 =~= sample4_paths()[0].3);
        assert(sample_tuples_view(paths@)[1].3 =~= sample4_paths()[1].3);
        assert(sample_tuples_view(paths@)[2].3 =~= sample4_paths()[2].3);
        assert(sample_tuples_view(paths@)[3].3 =~= sample4_paths()[3].3);
        assert(sample_tuples_view(paths@)[4].3 =~= sample4_paths()[4].3);
        assert(sample_tuples_view(paths@)[5].3 =~= sample4_paths()[5].3);
        assert(sample_tuples_view(paths@) =~= sample4_paths());
    }
    (graph, expected_shortest_paths)
}

} // verus!
