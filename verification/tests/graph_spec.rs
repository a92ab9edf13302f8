use alien_signals::graph::Graph;
use alien_signals::Flags;

/// A graph with `n` nodes that bear the marks `flags`.
fn graph_of(n: usize, flags: Flags) -> Graph {
    let mut g = Graph::new();
    for _ in 0..n {
        g.add_node(flags);
    }
    g
}

/// The links of the dependencies of `n`, by following the pointers.
fn deps(g: &Graph, n: usize) -> Vec<usize> {
    let mut out = vec![];
    let mut link = g.nodes[n].deps;
    while let Some(l) = link {
        out.push(l);
        link = g.links[l].next_dep;
    }
    out
}

/// The links of the subscribers of `n`, by following the pointers.
fn subs(g: &Graph, n: usize) -> Vec<usize> {
    let mut out = vec![];
    let mut link = g.nodes[n].subs;
    while let Some(l) = link {
        out.push(l);
        link = g.links[l].next_sub;
    }
    out
}

/// The effects that wait to run.
fn queue(g: &Graph) -> Vec<usize> {
    g.sys.queued[g.sys.queue_head..].to_vec()
}

/// Checks that every list can be walked both ways, and that every link that
/// is in a list of dependencies is in the list of subscribers of its `dep`.
fn assert_adjacent(g: &Graph) {
    for n in 0..g.nodes.len() {
        let ds = deps(g, n);
        let mut prev = None;
        for &l in &ds {
            assert_eq!(g.links[l].sub, n);
            assert_eq!(g.links[l].prev_dep, prev);
            assert!(subs(g, g.links[l].dep).contains(&l));
            prev = Some(l);
        }
        let ss = subs(g, n);
        let mut prev = None;
        for &l in &ss {
            assert_eq!(g.links[l].dep, n);
            assert_eq!(g.links[l].prev_sub, prev);
            assert!(deps(g, g.links[l].sub).contains(&l));
            prev = Some(l);
        }
        assert_eq!(g.nodes[n].subs_tail, ss.last().copied());
        if let Some(t) = g.nodes[n].deps_tail {
            assert!(ds.contains(&t));
        }
    }
}

#[test]
fn link_makes_a_link_behind_the_cursor() {
    let mut g = graph_of(4, Flags::none());
    g.link(0, 3, 7);
    g.link(1, 3, 7);
    g.link(2, 3, 7);
    assert_eq!(deps(&g, 3), vec![0, 1, 2]);
    assert_eq!(subs(&g, 0), vec![0]);
    assert_eq!(subs(&g, 1), vec![1]);
    assert_eq!(g.nodes[3].deps_tail, Some(2));
    assert_eq!(g.links[1].version, 7);
    assert_eq!((g.links[1].dep, g.links[1].sub), (1, 3));
    assert_eq!((g.links[1].prev_dep, g.links[1].next_dep), (Some(0), Some(2)));
    assert_adjacent(&g);

    g.clear_deps_tail(3);
    g.link(2, 3, 8);
    assert_eq!(deps(&g, 3), vec![3, 0, 1, 2]);
    assert_eq!(subs(&g, 2), vec![2, 3]);
    assert_eq!(g.nodes[3].deps_tail, Some(3));
    assert_adjacent(&g);
}

#[test]
fn link_does_nothing_where_the_cursor_stands_on_the_dependency() {
    let mut g = graph_of(2, Flags::none());
    g.link(0, 1, 1);
    g.link(0, 1, 2);
    assert_eq!(g.links.len(), 1);
    assert_eq!(g.links[0].version, 1);
    assert_eq!(g.nodes[1].deps_tail, Some(0));
}

#[test]
fn link_takes_the_link_behind_the_cursor_again() {
    let mut g = graph_of(3, Flags::none());
    g.link(0, 2, 1);
    g.link(1, 2, 1);
    g.clear_deps_tail(2);
    g.link(0, 2, 5);
    assert_eq!(g.links.len(), 2);
    assert_eq!(g.links[0].version, 5);
    assert_eq!(g.nodes[2].deps_tail, Some(0));
    g.link(1, 2, 5);
    assert_eq!(g.links.len(), 2);
    assert_eq!(g.links[1].version, 5);
    assert_eq!(g.nodes[2].deps_tail, Some(1));
    assert_eq!(deps(&g, 2), vec![0, 1]);
}

#[test]
fn link_knows_the_newest_subscriber_of_the_dependency() {
    let mut g = graph_of(3, Flags::none());
    g.link(0, 2, 4);
    g.link(1, 2, 4);
    g.link(0, 2, 4);
    assert_eq!(g.links.len(), 2);
    assert_eq!(g.nodes[2].deps_tail, Some(1));
    g.link(0, 2, 5);
    assert_eq!(g.links.len(), 3);
    assert_eq!(deps(&g, 2), vec![0, 1, 2]);
    assert_eq!(subs(&g, 0), vec![0, 2]);
    assert_adjacent(&g);
}

#[test]
fn is_valid_link_holds_of_what_the_cursor_has_passed() {
    let mut g = graph_of(4, Flags::none());
    g.link(0, 3, 1);
    g.link(1, 3, 1);
    g.link(2, 3, 1);
    g.clear_deps_tail(3);
    g.link(0, 3, 2);
    g.link(1, 3, 2);
    assert!(g.is_valid_link(0, 3));
    assert!(g.is_valid_link(1, 3));
    assert!(!g.is_valid_link(2, 3));
    assert!(!g.is_valid_link(0, 2));
}

#[test]
fn unlink_joins_the_neighbours_of_the_link() {
    let mut g = graph_of(5, Flags::none());
    g.link(0, 3, 1);
    g.link(1, 3, 1);
    g.link(2, 3, 1);
    g.link(1, 4, 1);
    let next = g.unlink(1, 3);
    assert_eq!(next, Some(2));
    assert_eq!(deps(&g, 3), vec![0, 2]);
    assert_eq!(subs(&g, 1), vec![3]);
    assert_eq!(g.nodes[3].deps_tail, Some(2));
    assert_eq!((g.links[1].prev_dep, g.links[1].next_dep), (None, None));
    assert_eq!((g.links[1].prev_sub, g.links[1].next_sub), (None, None));
    assert_adjacent(&g);

    let next = g.unlink(2, 3);
    assert_eq!(next, None);
    assert_eq!(deps(&g, 3), vec![0]);
    assert_eq!(g.nodes[3].deps_tail, Some(0));
    assert_eq!(subs(&g, 2), vec![]);
    assert_adjacent(&g);
}

#[test]
fn unlink_moves_the_cursor_back_from_the_link() {
    let mut g = graph_of(3, Flags::none());
    g.link(0, 2, 1);
    g.link(1, 2, 1);
    g.clear_deps_tail(2);
    g.link(0, 2, 2);
    assert_eq!(g.nodes[2].deps_tail, Some(0));
    g.unlink(0, 2);
    assert_eq!(g.nodes[2].deps_tail, None);
    assert_eq!(deps(&g, 2), vec![1]);
    assert_adjacent(&g);
}

#[test]
fn a_node_that_loses_its_last_subscriber_is_released() {
    let mut g = graph_of(4, Flags::mutable());
    g.link(0, 1, 1);
    g.link(1, 2, 1);
    g.link(1, 3, 1);
    g.unlink(1, 2);
    assert_eq!(deps(&g, 1), vec![0]);
    assert_eq!(g.nodes[1].flags, Flags::mutable());

    g.unlink(2, 3);
    assert_eq!(deps(&g, 1), vec![]);
    assert_eq!(subs(&g, 0), vec![]);
    assert_eq!(g.nodes[1].flags, Flags::mutable() | Flags::dirty());
    assert_eq!(g.nodes[1].deps_tail, None);
    assert_eq!(g.nodes[0].flags, Flags::mutable());
    assert_adjacent(&g);
}

#[test]
fn a_released_node_that_produces_no_value_is_put_to_rest() {
    let mut g = graph_of(3, Flags::mutable());
    g.set_flags(1, Flags::watching() | Flags::pending());
    g.link(0, 1, 1);
    g.link(1, 2, 1);
    g.unlink(1, 2);
    assert_eq!(g.nodes[1].flags, Flags::none());
    assert_eq!(deps(&g, 1), vec![]);
    assert_eq!(subs(&g, 0), vec![]);
    assert_adjacent(&g);
}

#[test]
fn purge_deps_takes_out_what_stands_behind_the_cursor() {
    let mut g = graph_of(4, Flags::mutable());
    g.link(0, 3, 1);
    g.link(1, 3, 1);
    g.link(2, 3, 1);
    g.purge_deps(3);
    assert_eq!(deps(&g, 3), vec![0, 1, 2]);
    g.clear_deps_tail(3);
    g.link(0, 3, 2);
    g.purge_deps(3);
    assert_eq!(deps(&g, 3), vec![0]);
    assert_eq!(g.nodes[3].deps_tail, Some(0));
    assert_eq!(subs(&g, 1), vec![]);
    assert_eq!(subs(&g, 2), vec![]);
    assert_adjacent(&g);
}

#[test]
fn dispose_lets_go_of_dependencies_and_of_the_node_above() {
    let mut g = graph_of(3, Flags::mutable());
    g.set_flags(1, Flags::watching());
    g.set_flags(2, Flags::watching());
    g.link(0, 1, 1);
    g.link(1, 2, 0);
    g.dispose(1);
    assert_eq!(g.nodes[1].flags, Flags::none());
    assert_eq!(g.nodes[1].deps_tail, None);
    assert_eq!(deps(&g, 1), vec![]);
    assert_eq!(subs(&g, 1), vec![]);
    assert_eq!(deps(&g, 2), vec![]);
    assert_eq!(g.nodes[2].flags, Flags::watching());
    let nodes = g.nodes.len();
    let links = g.links.len();
    g.dispose(1);
    assert_eq!((g.nodes.len(), g.links.len()), (nodes, links));
    assert_eq!(g.nodes[1].flags, Flags::none());
    assert_adjacent(&g);
}

#[test]
fn notify_queues_the_watching_nodes_above_the_outermost_first() {
    let mut g = graph_of(4, Flags::watching());
    g.link(0, 1, 0);
    g.link(1, 2, 0);
    g.set_flags(3, Flags::none());
    g.link(2, 3, 0);
    g.push_queued(3);
    g.notify(0);
    assert_eq!(queue(&g), vec![3, 2, 1, 0]);
    assert_eq!(g.nodes[0].flags, Flags::none());
    assert_eq!(g.nodes[1].flags, Flags::none());
    assert_eq!(g.nodes[2].flags, Flags::none());
    assert_eq!(g.pop_queued(), Some(3));
    assert_eq!(g.pop_queued(), Some(2));
    assert_eq!(queue(&g), vec![1, 0]);
}

#[test]
fn shallow_propagate_makes_pending_subscribers_dirty() {
    let mut g = graph_of(5, Flags::mutable());
    g.set_flags(1, Flags::mutable() | Flags::pending());
    g.set_flags(2, Flags::watching() | Flags::pending());
    g.set_flags(3, Flags::watching() | Flags::pending() | Flags::recursed_check());
    g.link(0, 1, 1);
    g.link(0, 2, 1);
    g.link(0, 3, 1);
    g.link(0, 4, 1);
    g.shallow_propagate(0);
    assert_eq!(g.nodes[1].flags, Flags::mutable() | Flags::pending() | Flags::dirty());
    assert_eq!(g.nodes[2].flags, Flags::pending() | Flags::dirty());
    assert_eq!(
        g.nodes[3].flags,
        Flags::watching() | Flags::pending() | Flags::recursed_check() | Flags::dirty()
    );
    assert_eq!(g.nodes[4].flags, Flags::mutable());
    assert_eq!(queue(&g), vec![2]);
}

#[test]
fn propagate_marks_what_depends_on_a_node() {
    // 0 is read by 1 and 2; 1 is read by 3; 2 and 3 are read by the effect 4.
    let mut g = graph_of(5, Flags::mutable());
    g.set_flags(4, Flags::watching());
    g.link(0, 1, 1);
    g.link(0, 2, 1);
    g.link(1, 3, 1);
    g.link(3, 4, 1);
    g.link(2, 4, 1);
    g.propagate(0);
    for n in 1..4 {
        assert_eq!(g.nodes[n].flags, Flags::mutable() | Flags::pending());
    }
    assert_eq!(g.nodes[4].flags, Flags::pending());
    assert_eq!(g.nodes[0].flags, Flags::mutable());
    assert_eq!(queue(&g), vec![4]);
}

#[test]
fn propagate_passes_over_what_is_marked_already() {
    let mut g = graph_of(4, Flags::mutable());
    g.set_flags(1, Flags::mutable() | Flags::dirty());
    g.set_flags(3, Flags::watching());
    g.link(0, 1, 1);
    g.link(1, 2, 1);
    g.link(0, 3, 1);
    g.propagate(0);
    assert_eq!(g.nodes[1].flags, Flags::mutable() | Flags::dirty());
    assert_eq!(g.nodes[2].flags, Flags::mutable());
    assert_eq!(g.nodes[3].flags, Flags::pending());
    assert_eq!(queue(&g), vec![3]);
}

#[test]
fn propagate_marks_a_node_under_evaluation_once() {
    let mut g = graph_of(3, Flags::mutable());
    g.set_flags(1, Flags::watching() | Flags::recursed_check());
    g.set_flags(2, Flags::watching() | Flags::recursed_check());
    g.link(0, 1, 1);
    g.link(0, 2, 1);
    g.clear_deps_tail(2);
    g.propagate(0);
    assert_eq!(
        g.nodes[1].flags,
        Flags::watching() | Flags::recursed_check() | Flags::recursed() | Flags::pending()
    );
    assert_eq!(g.nodes[2].flags, Flags::watching() | Flags::recursed_check());
    assert_eq!(queue(&g), vec![]);

    g.set_flags(1, Flags::watching() | Flags::recursed());
    g.propagate(0);
    assert_eq!(g.nodes[1].flags, Flags::pending());
    assert_eq!(queue(&g), vec![1]);
}

#[test]
fn invalidate_collected_dirties_the_subscribers_of_what_was_collected() {
    let mut g = graph_of(5, Flags::mutable());
    g.set_flags(3, Flags::watching());
    g.set_flags(4, Flags::watching());
    g.link(0, 2, 1);
    g.link(1, 3, 1);
    g.link(0, 4, 1);
    g.link(1, 4, 1);
    g.invalidate_collected(4);
    assert_eq!(deps(&g, 4), vec![]);
    assert_eq!(g.nodes[4].flags, Flags::none());
    assert_eq!(g.nodes[2].flags, Flags::mutable() | Flags::pending() | Flags::dirty());
    assert_eq!(g.nodes[3].flags, Flags::pending() | Flags::dirty());
    assert_eq!(queue(&g), vec![3]);
    assert_adjacent(&g);
}
