use ttt_engine::win_graph::{StateEntry, Tile, WinGraph};

/// Every label `<n>_<i>` maps to a sequence of exactly `n` moves.
#[test]
fn catalogue_labels_match_lengths() {
    let entries: Vec<StateEntry> = WinGraph::init_steps_map();
    assert!(entries.len() >= 1);
    for e in &entries {
        assert_eq!(e.steps.len(), e.label.ply as usize);
        assert!(e.label.ply <= 9);
        assert!(e.label.variant < 10);
    }
}

/// The catalogue holds the root state plus one entry per prefix of each of
/// the ten scripted lines.
#[test]
fn catalogue_entry_count() {
    let entries = WinGraph::init_steps_map();
    assert_eq!(entries.len(), 1 + 5 + 7 + 7 + 7 + 9 + 5 + 7 + 5 + 7 + 9);
}

/// No two entries carry the same label.
#[test]
fn catalogue_labels_unique() {
    let entries = WinGraph::init_steps_map();
    for i in 0..entries.len() {
        for j in 0..i {
            assert!(entries[i].label != entries[j].label);
        }
    }
}

/// No entry plays a cell twice, and every cell lies on the board.
#[test]
fn catalogue_cells_legal() {
    let entries = WinGraph::init_steps_map();
    for e in &entries {
        for (i, t) in e.steps.iter().enumerate() {
            assert!(t.idx < 9);
            for u in &e.steps[..i] {
                assert!(u.idx != t.idx);
            }
        }
    }
}

/// Every graph edge leads one move deeper: the target sequence extends the
/// source sequence by exactly one move and contains all of it.
#[test]
fn graph_edges_one_move_deeper() {
    let entries = WinGraph::init_steps_map();
    let graph = WinGraph::build_graph();
    assert_eq!(graph.node_count(), entries.len());
    let mut edge_count = 0usize;
    for e in graph.edge_indices() {
        let (s, t) = graph.edge_endpoints(e).unwrap();
        let src: &Vec<Tile> = &entries[s.index()].steps;
        let tgt: &Vec<Tile> = &entries[t.index()].steps;
        assert_eq!(tgt.len(), src.len() + 1);
        assert!(tgt.starts_with(src));
        edge_count += 1;
    }
    assert!(edge_count > 0);
}

/// A node's payload packs its entry's label as `ply * 100 + variant`.
#[test]
fn graph_node_payloads_pack_labels() {
    let entries = WinGraph::init_steps_map();
    let graph = WinGraph::build_graph();
    for i in graph.node_indices() {
        let label = entries[i.index()].label;
        assert_eq!(graph[i], label.ply as u64 * 100 + label.variant as u64);
    }
}

/// The root entry has one outgoing edge per scripted line (the ten opening
/// moves, duplicates included).
#[test]
fn graph_root_branches_to_every_line() {
    let entries = WinGraph::init_steps_map();
    let graph = WinGraph::build_graph();
    let root = graph
        .node_indices()
        .find(|&i| entries[i.index()].steps.is_empty())
        .unwrap();
    let openings: Vec<usize> = graph
        .neighbors(root)
        .map(|n| entries[n.index()].steps[0].idx)
        .collect();
    assert_eq!(openings.len(), 10);
    for c in openings {
        assert!(c == 4 || c == 0);
    }
}
