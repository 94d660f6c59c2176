use roadgraph::analyzer::compute_most_frequent_city_by_map;
use roadgraph::analyzer::compute_most_frequent_city_by_map_in_de;
use roadgraph::analyzer::compute_most_frequent_city_by_sorting;
use roadgraph::analyzer::compute_most_frequent_city_by_sorting_in_de;

fn records() -> Vec<(String, String)> {
    [
        ("Freiburg", "DE"),
        ("Basel", "CH"),
        ("Freiburg", "CH"),
        ("Basel", "CH"),
        ("Aarau", "CH"),
        ("Freiburg", "DE"),
    ]
    .iter()
    .map(|(n, c)| (n.to_string(), c.to_string()))
    .collect()
}

#[test]
fn frequency_table_is_ranked() {
    let r = compute_most_frequent_city_by_map(&records());
    let expected = vec![
        ("Freiburg".to_string(), 3usize),
        ("Basel".to_string(), 2),
        ("Aarau".to_string(), 1),
    ];
    assert_eq!(expected, r);
    assert_eq!(expected, compute_most_frequent_city_by_sorting(records()));
}

#[test]
fn equal_counts_rank_by_name() {
    let data: Vec<(String, String)> = [("Ulm", "DE"), ("Bonn", "DE"), ("Ulm", "DE"), ("Bonn", "DE")]
        .iter()
        .map(|(n, c)| (n.to_string(), c.to_string()))
        .collect();
    let r = compute_most_frequent_city_by_map(&data);
    assert_eq!(
        vec![("Bonn".to_string(), 2usize), ("Ulm".to_string(), 2)],
        r
    );
}

#[test]
fn germany_filter_keeps_full_counts() {
    // Freiburg occurs 3 times overall, twice in Germany; Basel and Aarau
    // never occur in Germany and drop out, but Freiburg keeps its full count
    let r = compute_most_frequent_city_by_map_in_de(&records());
    let expected = vec![("Freiburg".to_string(), 3usize)];
    assert_eq!(expected, r);
    assert_eq!(
        expected,
        compute_most_frequent_city_by_sorting_in_de(records())
    );
}

#[test]
fn empty_input_gives_empty_table() {
    let r = compute_most_frequent_city_by_map(&Vec::new());
    assert!(r.is_empty());
    let r = compute_most_frequent_city_by_map_in_de(&Vec::new());
    assert!(r.is_empty());
}
