use polygon_unionfind::LayersWithTransitions;

#[test]
fn layers_and_transitions_are_indexed() {
    let lwt = LayersWithTransitions::new(vec!["a", "b", "c"], vec![1, 2]);
    assert_eq!(lwt.layers(), &["a", "b", "c"]);
    assert_eq!(lwt.transitions(), &[1, 2]);
    assert_eq!(lwt.layer(1), Some(&"b"));
    assert_eq!(lwt.layer(3), None);
    assert_eq!(lwt.transition(1), Some(&2));
    assert_eq!(lwt.transition(2), None);
}

#[test]
fn no_layers_means_no_transitions() {
    let lwt: LayersWithTransitions<u8, u8> = LayersWithTransitions::new(vec![], vec![]);
    assert!(lwt.layers().is_empty());
    assert_eq!(lwt.layer(0), None);
    assert_eq!(lwt.transition(0), None);
}

#[test]
fn a_single_layer_has_no_transition() {
    let lwt: LayersWithTransitions<u8, u8> = LayersWithTransitions::new(vec![7], vec![]);
    assert_eq!(lwt.layer(0), Some(&7));
    assert!(lwt.transitions().is_empty());
}
