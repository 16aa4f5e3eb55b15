use birds_eye_view::BirdsEyeView;
use birds_eye_view::BirdsEyeViewStats;

#[test]
fn new_geometry_defaults() {
    let v = BirdsEyeView::new();
    assert_eq!(v.items(), 0);
    assert_eq!(v.items_per_row(), 25);
    assert_eq!(v.items_dimension(), 20);
    assert_eq!(v.items_margin(), 5);
    assert_eq!(v.padding(), 5);
    assert_eq!(v.rows(), 0);
    assert_eq!(v.width(), 5 + 25 * 30 + 5);
    assert_eq!(v.height(), 10);
}

#[test]
fn register_reports_new_ids_only() {
    let mut v = BirdsEyeView::new();
    assert!(v.register("a"));
    assert!(!v.register("a"));
    assert_eq!(v.items(), 1);
    assert!(v.register("b"));
    assert!(!v.register("b"));
    assert_eq!(v.items(), 2);
}

#[test]
fn register_recomputes_rows_and_height() {
    let mut v = BirdsEyeView::new();
    v.change_items_per_row(2);
    v.register("a");
    v.register("b");
    v.register("c");
    assert_eq!(v.rows(), 2);
    assert_eq!(v.height(), 5 + 2 * 30 + 5);
}

#[test]
fn layout_example_three_nodes_two_per_row() {
    let mut v = BirdsEyeView::new();
    v.change_items_per_row(2);
    v.register("a");
    v.register("b");
    v.register("c");
    assert_eq!(v.rows(), 2);
    let nodes = v.nodes();
    assert_eq!(nodes.len(), 3);
    assert_eq!(nodes[0].rpi_serial, "a");
    assert_eq!((nodes[0].x, nodes[0].y), (10, 10));
    assert_eq!(nodes[1].rpi_serial, "b");
    assert_eq!((nodes[1].x, nodes[1].y), (40, 10));
    assert_eq!(nodes[2].rpi_serial, "c");
    assert_eq!((nodes[2].x, nodes[2].y), (10, 40));
}

#[test]
fn layout_ignores_registration_order() {
    let mut v1 = BirdsEyeView::new();
    v1.register("b");
    v1.register("a");
    v1.register("c");
    let mut v2 = BirdsEyeView::new();
    v2.register("c");
    v2.register("b");
    v2.register("a");
    let n1 = v1.nodes();
    let n2 = v2.nodes();
    assert_eq!(n1.len(), n2.len());
    for k in 0..n1.len() {
        assert_eq!(n1[k].rpi_serial, n2[k].rpi_serial);
        assert_eq!(n1[k].x, n2[k].x);
        assert_eq!(n1[k].y, n2[k].y);
        assert_eq!(n1[k].machine_state, n2[k].machine_state);
    }
    assert_eq!(n1[0].rpi_serial, "a");
    assert_eq!(n1[1].rpi_serial, "b");
    assert_eq!(n1[2].rpi_serial, "c");
    let n1_again = v1.nodes();
    for k in 0..n1.len() {
        assert_eq!(n1[k].rpi_serial, n1_again[k].rpi_serial);
        assert_eq!(n1[k].x, n1_again[k].x);
        assert_eq!(n1[k].y, n1_again[k].y);
    }
}

#[test]
fn add_cls_unknown_id_is_refused() {
    let mut v = BirdsEyeView::new();
    assert!(!v.add_cls("x", "alert"));
    assert!(!v.add_cls("x", "macon_short_uptime"));
    for entry in v.stats().entries().iter() {
        assert!(entry.1.is_empty());
    }
}

#[test]
fn add_cls_tracks_declared_buckets() {
    let mut v = BirdsEyeView::new();
    v.register("n1");
    assert!(v.add_cls("n1", "macon_short_uptime"));
    assert!(v.add_cls("n1", "macon_short_uptime"));
    assert!(v.add_cls("n1", "custom_tag"));
    let entries = v.stats().entries();
    assert_eq!(entries.len(), 2);
    let mut uptime_len = 0;
    for entry in entries.iter() {
        if entry.0 == "macon_short_uptime" {
            uptime_len = entry.1.len();
            assert_eq!(entry.1[0], "n1");
        } else {
            assert!(entry.1.is_empty());
        }
    }
    assert_eq!(uptime_len, 1);
    let nodes = v.nodes();
    assert_eq!(nodes[0].cls.len(), 2);
}

#[test]
fn clear_cls_empties_tags_and_buckets() {
    let mut v = BirdsEyeView::new();
    v.register("n1");
    assert!(v.add_cls("n1", "no_identity"));
    v.clear_cls("n1");
    for entry in v.stats().entries().iter() {
        assert!(entry.1.is_empty());
    }
    let nodes = v.nodes();
    assert!(nodes[0].cls.is_empty());
    v.clear_cls("ghost");
    assert_eq!(v.items(), 1);
}

#[test]
fn set_machine_state_rules() {
    let mut v = BirdsEyeView::new();
    assert!(!v.set_machine_state("a", "warmup"));
    v.register("a");
    assert!(v.set_machine_state("a", "warmup"));
    assert!(!v.set_machine_state("a", "warmup"));
    assert!(!v.set_machine_state("a", "bogus"));
    let nodes = v.nodes();
    assert_eq!(nodes[0].machine_state, "warmup");
}

#[test]
fn machine_state_stats_canonical_zero_filled() {
    let mut v = BirdsEyeView::new();
    v.register("a");
    v.register("b");
    v.register("c");
    v.register("d");
    v.set_machine_state("a", "warmup");
    v.set_machine_state("b", "warmup");
    v.set_machine_state("c", "production_100");
    let stats = v.machine_state_stats();
    let expected = vec![
        "not_switched_on",
        "warmup",
        "program_interruption",
        "production_lt_100",
        "production_100",
        "not_running_wo_error",
        "not_running_w_error",
    ];
    assert_eq!(stats.len(), 7);
    let mut sum: i32 = 0;
    for (k, entry) in stats.iter().enumerate() {
        assert_eq!(entry.0.as_str(), expected[k]);
        sum += entry.1;
    }
    assert_eq!(sum, 3);
    assert_eq!(stats[0].1, 0);
    assert_eq!(stats[1].1, 2);
    assert_eq!(stats[4].1, 1);
}

#[test]
fn change_items_per_row_updates_geometry() {
    let mut v = BirdsEyeView::new();
    v.register("a");
    v.register("b");
    v.register("c");
    v.change_items_per_row(1);
    assert_eq!(v.items_per_row(), 1);
    assert_eq!(v.width(), 5 + 30 + 5);
    assert_eq!(v.rows(), 3);
    assert_eq!(v.height(), 5 + 3 * 30 + 5);
}

#[test]
fn set_coordinates_overwrites_position() {
    let mut v = BirdsEyeView::new();
    v.register("a");
    let mut nodes = v.nodes();
    nodes[0].set_coordinates(99, 77);
    assert_eq!(nodes[0].x, 99);
    assert_eq!(nodes[0].y, 77);
    assert_eq!(nodes[0].rpi_serial, "a");
}

#[test]
fn stats_table_from_buckets() {
    let stats = BirdsEyeViewStats::new(vec![
        ("alpha".to_string(), vec!["n1".to_string()]),
        ("beta".to_string(), Vec::new()),
    ]);
    let entries = stats.entries();
    assert_eq!(entries.len(), 2);
    assert_eq!(entries[0].0, "alpha");
    assert_eq!(entries[0].1, vec!["n1".to_string()]);
    assert_eq!(entries[1].0, "beta");
    assert!(entries[1].1.is_empty());
}
