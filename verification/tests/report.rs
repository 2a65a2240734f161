use wifi_densepose_cathedral::report::{community_section, decimal_text, join_names, location_pair_count, overview_line};

fn names(list: &[&str]) -> Vec<String> {
    list.iter().map(|s| s.to_string()).collect()
}

#[test]
fn pair_count_of_six_rooms() {
    assert_eq!(location_pair_count(6), 15);
    assert_eq!(location_pair_count(1), 0);
    assert_eq!(location_pair_count(50), 1225);
}

#[test]
fn decimal_text_matches_display() {
    for n in [0usize, 7, 10, 99, 100, 1234, 9_876_543_210, usize::MAX] {
        assert_eq!(decimal_text(n), n.to_string());
    }
}

#[test]
fn join_names_uses_comma_space() {
    assert_eq!(join_names(&Vec::new()), "");
    assert_eq!(join_names(&names(&["bathroom"])), "bathroom");
    assert_eq!(join_names(&names(&["living_room", "kitchen", "hallway"])), "living_room, kitchen, hallway");
}

#[test]
fn community_section_lists_groups() {
    let groups = vec![
        (0, names(&["living_room", "kitchen", "hallway"])),
        (1, names(&["bedroom", "office"])),
        (2, names(&["bathroom"])),
    ];
    let expected = "─── Spectral Communities ───\n\
                    \x20 Community 0 (3 members): living_room, kitchen, hallway\n\
                    \x20 Community 1 (2 members): bedroom, office\n\
                    \x20 Community 2 (1 member): bathroom\n\n";
    assert_eq!(community_section(&groups), expected);
    assert_eq!(community_section(&Vec::new()), "─── Spectral Communities ───\n\n");
}

#[test]
fn overview_line_of_the_demo_apartment() {
    assert_eq!(overview_line(6, 1), "Locations: 6  |  Edges: 15  |  Connected components: 1\n\n");
    assert_eq!(overview_line(1, 1), "Locations: 1  |  Edges: 0  |  Connected components: 1\n\n");
}
