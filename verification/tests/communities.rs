use wifi_densepose_cathedral::communities::{cluster_count, group_communities, pair_communities};
use wifi_densepose_cathedral::probe::location_probe;

fn names(list: &[&str]) -> Vec<String> {
    list.iter().map(|s| s.to_string()).collect()
}

fn communities_of(g: &cathedral_probe::CathedralProbe, locations: &Vec<String>, requested: usize) -> Vec<(String, usize)> {
    let k = cluster_count(requested, g.node_count());
    pair_communities(locations, &g.spectral_cluster(k))
}

fn living_space() -> (Vec<String>, cathedral_probe::CathedralProbe) {
    let locations = names(&["living_room", "bedroom", "kitchen"]);
    let correlations = vec![vec![1.0, 0.6, 0.8], vec![0.6, 1.0, 0.4], vec![0.8, 0.4, 1.0]];
    let mut g = location_probe(&locations);
    for i in 0..3 {
        for j in (i + 1)..3 {
            g.connect(&locations[i], &locations[j], correlations[i][j]);
        }
    }
    (locations, g)
}

#[test]
fn cluster_count_is_clamped() {
    assert_eq!(cluster_count(0, 5), 1);
    assert_eq!(cluster_count(3, 5), 3);
    assert_eq!(cluster_count(9, 5), 5);
    assert_eq!(cluster_count(0, 0), 0);
    assert_eq!(cluster_count(4, 0), 0);
}

#[test]
fn pair_communities_defaults_missing_labels_to_zero() {
    let locations = names(&["a", "b", "c"]);
    let paired = pair_communities(&locations, &vec![2, 1]);
    assert_eq!(
        paired,
        vec![("a".to_string(), 2), ("b".to_string(), 1), ("c".to_string(), 0)]
    );
}

#[test]
fn test_analyze_living_space_communities() {
    let (locations, g) = living_space();
    let communities = communities_of(&g, &locations, 2);
    assert_eq!(communities.len(), 3);
    for (i, (name, label)) in communities.iter().enumerate() {
        assert_eq!(name, &locations[i]);
        assert!(*label < 2);
    }
}

#[test]
fn one_cluster_puts_everyone_together() {
    let (locations, g) = living_space();
    let communities = communities_of(&g, &locations, 0);
    assert!(communities.iter().all(|(_, c)| *c == 0));
    let communities = communities_of(&g, &locations, 1);
    assert!(communities.iter().all(|(_, c)| *c == 0));
}

#[test]
fn as_many_clusters_as_locations_gives_singletons() {
    let (locations, g) = living_space();
    let communities = communities_of(&g, &locations, 7);
    let labels: Vec<usize> = communities.iter().map(|(_, c)| *c).collect();
    assert_eq!(labels, vec![0, 1, 2]);
}

#[test]
fn test_single_location_community() {
    let locations = names(&["only_room"]);
    let g = location_probe(&locations);
    assert_eq!(communities_of(&g, &locations, 1), vec![("only_room".to_string(), 0)]);
}

#[test]
fn grouping_sorts_labels_and_keeps_member_order() {
    let communities = vec![
        ("living_room".to_string(), 2),
        ("kitchen".to_string(), 0),
        ("hallway".to_string(), 2),
        ("bedroom".to_string(), 5),
        ("office".to_string(), 0),
    ];
    let groups = group_communities(&communities);
    assert_eq!(
        groups,
        vec![
            (0, names(&["kitchen", "office"])),
            (2, names(&["living_room", "hallway"])),
            (5, names(&["bedroom"])),
        ]
    );
    let total: usize = groups.iter().map(|(_, m)| m.len()).sum();
    assert_eq!(total, communities.len());
}

#[test]
fn grouping_nothing_gives_no_groups() {
    assert!(group_communities(&Vec::new()).is_empty());
}
