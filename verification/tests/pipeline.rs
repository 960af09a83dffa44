use gerard::{fuzzy_match, match_score, EntryObject, Pipeline};

fn collection(names: &[&str]) -> Vec<EntryObject> {
    names.iter().map(|name| EntryObject::new(name, "").unwrap()).collect()
}

fn browser_files_gimp() -> Pipeline {
    Pipeline::new(collection(&["Firefox", "Files", "GIMP"]))
}

fn scores(pipeline: &Pipeline) -> Vec<i64> {
    (0..pipeline.len()).map(|i| pipeline.entry(i).score()).collect()
}

#[test]
fn new_shows_the_whole_collection() {
    let pipeline = browser_files_gimp();
    assert_eq!(pipeline.len(), 3);
    assert_eq!(pipeline.query(), "");
    assert_eq!(pipeline.ordered_view(), &vec![0, 1, 2]);
    assert_eq!(pipeline.view_names(), vec!["Firefox", "Files", "GIMP"]);
}

#[test]
fn new_resets_the_scores() {
    let mut entries = collection(&["Firefox", "Files"]);
    entries[0].set_score(12);
    entries[1].set_score(-4);
    let pipeline = Pipeline::new(entries);
    assert_eq!(scores(&pipeline), vec![0, 0]);
}

#[test]
fn new_over_nothing_is_empty() {
    let mut pipeline = Pipeline::new(Vec::new());
    assert_eq!(pipeline.len(), 0);
    assert!(pipeline.ordered_view().is_empty());
    pipeline.set_query("fi");
    assert!(pipeline.ordered_view().is_empty());
    pipeline.set_query("");
    assert!(pipeline.ordered_view().is_empty());
}

#[test]
fn query_fi_keeps_firefox_and_files() {
    let mut pipeline = browser_files_gimp();
    pipeline.set_query("fi");
    let names = pipeline.view_names();
    assert_eq!(names.len(), 2);
    assert!(names.contains(&String::from("Firefox")));
    assert!(names.contains(&String::from("Files")));
    assert!(!names.contains(&String::from("GIMP")));
    let firefox = fuzzy_match("Firefox", "fi").unwrap();
    let files = fuzzy_match("Files", "fi").unwrap();
    if firefox >= files {
        assert_eq!(names, vec!["Firefox", "Files"]);
    } else {
        assert_eq!(names, vec!["Files", "Firefox"]);
    }
}

#[test]
fn empty_query_returns_the_collection_in_order() {
    let mut pipeline = browser_files_gimp();
    pipeline.set_query("");
    assert_eq!(pipeline.view_names(), vec!["Firefox", "Files", "GIMP"]);
    assert_eq!(scores(&pipeline), vec![0, 0, 0]);
}

#[test]
fn query_zzz_returns_an_empty_view() {
    let mut pipeline = browser_files_gimp();
    pipeline.set_query("zzz");
    assert!(pipeline.view_names().is_empty());
    assert!(pipeline.ordered_view().is_empty());
    assert_eq!(pipeline.len(), 3);
    assert_eq!(scores(&pipeline), vec![0, 0, 0]);
}

#[test]
fn set_query_remembers_the_query() {
    let mut pipeline = browser_files_gimp();
    pipeline.set_query("gi");
    assert_eq!(pipeline.query(), "gi");
    pipeline.set_query("");
    assert_eq!(pipeline.query(), "");
}

#[test]
fn set_query_stores_each_score() {
    let mut pipeline = browser_files_gimp();
    pipeline.set_query("fi");
    assert_eq!(
        scores(&pipeline),
        vec![
            match_score(fuzzy_match("Firefox", "fi")),
            match_score(fuzzy_match("Files", "fi")),
            0
        ]
    );
}

#[test]
fn view_holds_exactly_the_positive_matches() {
    let names = [
        "Firefox", "Files", "GIMP", "Fonts", "Terminal", "Text Editor", "Image Viewer", "Settings",
    ];
    let mut pipeline = Pipeline::new(collection(&names));
    for query in ["fi", "t", "e", "im", "xq", "s", "FILES"] {
        pipeline.set_query(query);
        for (index, name) in names.iter().enumerate() {
            let positive = matches!(fuzzy_match(name, query), Some(score) if score > 0);
            assert_eq!(pipeline.ordered_view().contains(&index), positive);
        }
    }
}

#[test]
fn view_runs_by_descending_score_with_stable_ties() {
    let names = [
        "Terminal", "Text Editor", "Tetris", "Settings", "Text Editor", "Terminal", "Files",
    ];
    let mut pipeline = Pipeline::new(collection(&names));
    for query in ["te", "t", "e", "s", ""] {
        pipeline.set_query(query);
        let order = pipeline.ordered_view().clone();
        for pair in order.windows(2) {
            let first = pipeline.entry(pair[0]).score();
            let second = pipeline.entry(pair[1]).score();
            assert!(first >= second);
            if first == second {
                assert!(pair[0] < pair[1]);
            }
        }
    }
}

#[test]
fn equal_names_stay_in_collection_order() {
    let mut pipeline = Pipeline::new(collection(&["Files", "GIMP", "Files", "Files"]));
    pipeline.set_query("fil");
    assert_eq!(pipeline.ordered_view(), &vec![0, 2, 3]);
}

#[test]
fn empty_query_restores_the_collection_after_any_query() {
    let mut pipeline = browser_files_gimp();
    for query in ["fi", "zzz", "g", "x"] {
        pipeline.set_query(query);
        pipeline.set_query("");
        assert_eq!(pipeline.ordered_view(), &vec![0, 1, 2]);
        assert_eq!(scores(&pipeline), vec![0, 0, 0]);
    }
}

#[test]
fn the_same_query_twice_gives_the_same_view() {
    let mut pipeline = browser_files_gimp();
    for query in ["fi", "", "zzz", "i"] {
        pipeline.set_query(query);
        let once = (pipeline.ordered_view().clone(), scores(&pipeline));
        pipeline.set_query(query);
        let twice = (pipeline.ordered_view().clone(), scores(&pipeline));
        assert_eq!(once, twice);
    }
}

#[test]
fn the_view_does_not_depend_on_earlier_queries() {
    let mut fresh = browser_files_gimp();
    fresh.set_query("fi");
    let mut used = browser_files_gimp();
    for query in ["g", "zzz", "", "fire", "i"] {
        used.set_query(query);
    }
    used.set_query("fi");
    assert_eq!(fresh.ordered_view(), used.ordered_view());
    assert_eq!(scores(&fresh), scores(&used));
}

#[test]
fn push_under_the_empty_query_appends_to_the_view() {
    let mut pipeline = browser_files_gimp();
    pipeline.push(EntryObject::new("Fonts", "").unwrap());
    assert_eq!(pipeline.len(), 4);
    assert_eq!(pipeline.view_names(), vec!["Firefox", "Files", "GIMP", "Fonts"]);
}

#[test]
fn push_under_a_query_ranks_the_new_entry() {
    let mut grown = Pipeline::new(collection(&["GIMP", "Files"]));
    grown.set_query("fi");
    grown.push(EntryObject::new("Firefox", "").unwrap());
    grown.push(EntryObject::new("Terminal", "").unwrap());
    let mut whole = Pipeline::new(collection(&["GIMP", "Files", "Firefox", "Terminal"]));
    whole.set_query("fi");
    assert_eq!(grown.ordered_view(), whole.ordered_view());
    assert_eq!(scores(&grown), scores(&whole));
    assert_eq!(grown.query(), "fi");
}

#[test]
fn push_resets_a_stale_score() {
    let mut pipeline = browser_files_gimp();
    let mut entry = EntryObject::new("Fonts", "").unwrap();
    entry.set_score(77);
    pipeline.push(entry);
    assert_eq!(pipeline.entry(3).score(), 0);
}

#[test]
fn view_entry_follows_the_view() {
    let mut pipeline = browser_files_gimp();
    pipeline.set_query("gim");
    assert_eq!(pipeline.ordered_view(), &vec![2]);
    assert_eq!(pipeline.view_entry(0).name(), "GIMP");
    assert!(pipeline.view_entry(0).score() > 0);
}

#[test]
fn activate_gives_the_target_of_the_entry_shown() {
    let entries = vec![
        EntryObject::create("Firefox", "firefox", "firefox.desktop").unwrap(),
        EntryObject::create("Files", "nautilus", "nautilus.desktop").unwrap(),
        EntryObject::create("GIMP", "gimp", "gimp.desktop").unwrap(),
    ];
    let mut pipeline = Pipeline::new(entries);
    assert_eq!(pipeline.activate(1), "nautilus.desktop");
    pipeline.set_query("gimp");
    assert_eq!(pipeline.activate(0), "gimp.desktop");
}

#[test]
fn a_query_of_control_characters_matches_nothing() {
    let mut pipeline = browser_files_gimp();
    pipeline.set_query("\u{1}\u{2}\t");
    assert!(pipeline.ordered_view().is_empty());
}
