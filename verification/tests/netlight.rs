use reticle_app::netlight::Netlight;

/// A stand-in netlist: the nets as shape-index lists.
type Nets = Vec<Vec<usize>>;

fn two_nets() -> Nets {
    // Shapes 0 and 1 overlap -> one net; shape 2 is its own net.
    vec![vec![0, 1], vec![2]]
}

fn net_of(nets: &Nets, shape: usize) -> Option<&[usize]> {
    nets.iter().find(|n| n.contains(&shape)).map(|n| n.as_slice())
}

/// Highlights the net of `shape` at `generation`, extracting when stale.
fn pick(nl: &mut Netlight<Nets>, generation: u64, shape: usize, extractions: &mut usize) -> usize {
    if nl.is_stale(generation) {
        *extractions += 1;
        nl.store(generation, two_nets());
    }
    let net: Option<Vec<usize>> = net_of(nl.netlist().unwrap(), shape).map(|s| s.to_vec());
    nl.highlight(net.as_deref())
}

#[test]
fn highlight_returns_connected_shapes() {
    let mut nl = Netlight::new();
    let mut n = 0;
    assert_eq!(pick(&mut nl, 1, 0, &mut n), 2);
    assert!(nl.contains(0));
    assert!(nl.contains(1));
    assert!(!nl.contains(2), "disjoint shape must not be highlighted");
}

#[test]
fn highlight_isolated_shape_is_its_own_net() {
    let mut nl = Netlight::new();
    let mut n = 0;
    assert_eq!(pick(&mut nl, 1, 2, &mut n), 1);
    assert!(nl.contains(2));
    assert!(!nl.contains(0));
}

#[test]
fn out_of_range_pick_highlights_nothing() {
    let mut nl = Netlight::new();
    let mut n = 0;
    assert_eq!(pick(&mut nl, 1, 9999, &mut n), 0);
    assert!(nl.is_empty());
}

#[test]
fn clear_empties_highlight() {
    let mut nl = Netlight::new();
    let mut n = 0;
    pick(&mut nl, 1, 0, &mut n);
    assert!(!nl.is_empty());
    nl.clear();
    assert!(nl.is_empty());
    assert_eq!(nl.highlighted(), &[] as &[usize]);
}

#[test]
fn cache_reused_within_a_generation_and_refreshed_after() {
    let mut nl = Netlight::new();
    let mut extractions = 0;
    assert_eq!(nl.cached_generation(), None);
    // First pick at generation 1 populates the cache.
    pick(&mut nl, 1, 0, &mut extractions);
    assert_eq!(nl.cached_generation(), Some(1));
    // A second pick at the same generation keeps the same cached netlist.
    pick(&mut nl, 1, 2, &mut extractions);
    assert_eq!(nl.cached_generation(), Some(1));
    assert_eq!(extractions, 1);
    // A pick at a newer generation re-extracts and re-tags the cache.
    pick(&mut nl, 5, 0, &mut extractions);
    assert_eq!(nl.cached_generation(), Some(5));
    assert_eq!(extractions, 2);
}
