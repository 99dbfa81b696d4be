use spanning_tree::random_peer_generator::{PeerGenerator, RandomPeerGenerator};

#[test]
fn empty() {
    let mut rng = rand::rng();
    let mut g = RandomPeerGenerator::new(0, vec![], &mut rng);
    assert_eq!(g.generate_peer(), None);
}

#[test]
fn generates_all() {
    let mut rng = rand::rng();
    let mut g = RandomPeerGenerator::new(5, vec![], &mut rng);
    let expected = vec![0, 1, 2, 3, 4];
    let mut generated: Vec<usize> = (0..expected.len())
        .map_while(|_| g.generate_peer())
        .collect();
    generated.sort_unstable();
    assert_eq!(generated, expected);
    assert_eq!(g.generate_peer(), None);
}

#[test]
fn some_excluded() {
    let mut rng = rand::rng();
    let mut g = RandomPeerGenerator::new(10, vec![2, 3, 5, 7], &mut rng);
    let expected = vec![0, 1, 4, 6, 8, 9];
    let mut generated: Vec<usize> = (0..expected.len())
        .map_while(|_| g.generate_peer())
        .collect();
    generated.sort_unstable();
    assert_eq!(generated, expected);
    assert_eq!(g.generate_peer(), None);
}

#[test]
fn excluding_more_peers_shrinks_the_pool() {
    let mut rng = rand::rng();
    let mut g = RandomPeerGenerator::new(6, vec![5, 0], &mut rng);
    g.exclude(vec![3, 1]);
    let mut generated: Vec<usize> = Vec::new();
    while let Some(p) = g.generate_peer() {
        generated.push(p);
    }
    generated.sort_unstable();
    assert_eq!(generated, vec![2, 4]);
}

#[test]
fn excluding_more_peers_than_there_are_leaves_none() {
    let mut rng = rand::rng();
    let mut g = RandomPeerGenerator::new(2, vec![0], &mut rng);
    g.exclude(vec![1, 1]);
    assert_eq!(g.generate_peer(), None);
}
