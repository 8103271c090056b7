use mapannot::ids::IdGenerator;
use mapannot::layer::LayerRenderer;

#[test]
fn generator_counts_from_one() {
    let mut g = IdGenerator::new();
    assert!(g.has_next());
    assert_eq!(g.get_id(), 1);
    assert_eq!(g.get_id(), 2);
    assert_eq!(g.get_id(), 3);
}

#[test]
fn layers_get_their_identifiers() {
    let mut layers: LayerRenderer<(i32, String)> = LayerRenderer::new();
    assert!(layers.layers().is_empty());
    assert_eq!(layers.add_layer(|id| (id, String::from("roads"))), 1);
    assert_eq!(layers.add_layer(|id| (id, String::from("rivers"))), 2);
    assert_eq!(layers.layers(), &vec![(1, String::from("roads")), (2, String::from("rivers"))]);
    layers.reset();
    assert!(layers.layers().is_empty());
    assert!(layers.has_free_id());
    assert_eq!(layers.add_layer(|id| (id, String::from("relief"))), 1);
}
