use graphviz_core::charts::{Plot, Scatter, TICK_INTERVALS};

#[test]
fn plot_joins_consecutive_values() {
    let p = Plot::new();
    assert_eq!(p.segments(4), vec![(0, 1), (1, 2), (2, 3)]);
    assert!(p.segments(1).is_empty());
    assert!(p.segments(0).is_empty());
    assert!(!p.draws(0));
    assert!(p.draws(1));
}

#[test]
fn plot_labels_every_value_tick() {
    let p = Plot::new();
    assert_eq!(p.value_ticks(), (0..=TICK_INTERVALS).collect::<Vec<usize>>());
    assert_eq!(p.value_ticks().len(), 11);
}

#[test]
fn scatter_skips_the_last_horizontal_label() {
    let s = Scatter::new();
    assert_eq!(s.grid_ticks().len(), 11);
    assert_eq!(s.labelled_x_ticks(), (0..10).collect::<Vec<usize>>());
    assert_eq!(s.labelled_y_ticks(), (0..=10).collect::<Vec<usize>>());
    assert!(!s.draws(0));
}
