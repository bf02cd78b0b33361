use sonny_sorter::elevation;
use sonny_sorter::paths::Paths;
use sonny_sorter::placement::{bucket, place, place_cell, Action};
use sonny_sorter::coordinate::PathError;
use sonny_sorter::text;

fn strings(items: &[&str]) -> Vec<String> {
    items.iter().map(|s| String::from(*s)).collect()
}

#[test]
fn three_tiles_three_cells_planned_end_to_end() {
    let files = strings(&["/s/N78E030.hgt", "/s/N63W023.hgt", "/s/N47E011.hgt"]);
    let buckets = bucket(&files).unwrap();
    let keys: Vec<&str> = buckets.entries.iter().map(|b| b.key.as_str()).collect();
    assert_eq!(keys, vec!["+70+030", "+60-030", "+40+010"]);

    let acts = place("/s", "/d", &buckets, &vec![false; 3], &vec![false; 3]);
    assert_eq!(
        acts[0],
        Action::CreateDir(String::from("/s/+70+030"))
    );
    assert_eq!(
        acts[1],
        Action::CreateLink {
            link: String::from("/d/+70+030"),
            target: String::from("/s/+70+030"),
        }
    );
    assert_eq!(
        acts[2],
        Action::Rename {
            from: String::from("/s/N78E030.hgt"),
            to: String::from("/s/+70+030/N78E030.hgt"),
        }
    );
    assert_eq!(acts.len(), 9);
}

#[test]
fn one_southern_tile_lands_in_its_cell() {
    let files = strings(&["/s/S03W003.hgt"]);
    let buckets = bucket(&files).unwrap();
    assert_eq!(buckets.entries.len(), 1);
    assert_eq!(buckets.entries[0].key, "-10-010");

    let acts = place_cell("/s", "/d", "-10-010", &buckets.entries[0].files, false, false);
    assert!(acts.contains(&Action::Rename {
        from: String::from("/s/S03W003.hgt"),
        to: String::from("/s/-10-010/S03W003.hgt"),
    }));
}

#[test]
fn same_cell_tiles_share_one_bucket() {
    let files = strings(&["/s/N78E030.hgt", "/s/N79E031.hgt", "/s/N70E030.hgt"]);
    let buckets = bucket(&files).unwrap();
    assert_eq!(buckets.entries.len(), 1);
    assert_eq!(buckets.entries[0].key, "+70+030");
    assert_eq!(buckets.entries[0].files, files);

    let acts = place("/s", "/d", &buckets, &vec![false], &vec![false]);
    let moved: Vec<&Action> = acts
        .iter()
        .filter(|a| matches!(a, Action::Rename { .. }))
        .collect();
    assert_eq!(moved.len(), 3);
    assert!(acts.contains(&Action::Rename {
        from: String::from("/s/N70E030.hgt"),
        to: String::from("/s/+70+030/N70E030.hgt"),
    }));
}

#[test]
fn malformed_stem_aborts_the_whole_run() {
    let files = strings(&["/s/N78E03.hgt", "/s/N78E030.hgt"]);
    match bucket(&files) {
        Err(PathError::InvalidLength(n)) => assert_eq!(n, 6),
        other => panic!("expected InvalidLength, got {:?}", other),
    }
}

#[test]
fn repeated_path_is_inserted_once() {
    let files = strings(&["/s/N78E030.hgt", "/s/N78E030.hgt"]);
    let buckets = bucket(&files).unwrap();
    assert_eq!(buckets.entries.len(), 1);
    assert_eq!(buckets.entries[0].files, strings(&["/s/N78E030.hgt"]));
}

#[test]
fn every_input_path_appears_in_exactly_one_bucket() {
    let files = strings(&[
        "/s/N78E030.hgt",
        "/s/S03W003.hgt",
        "/s/N79E031.hgt",
        "/s/N00E000.hgt",
    ]);
    let buckets = bucket(&files).unwrap();
    let mut placed: Vec<String> = Vec::new();
    for b in &buckets.entries {
        for f in &b.files {
            assert!(!placed.contains(f), "{} appears in two buckets", f);
            placed.push(f.clone());
        }
    }
    for f in &files {
        assert!(placed.contains(f), "{} was dropped", f);
    }
    assert_eq!(placed.len(), files.len());
}

#[test]
fn existing_cell_dir_and_link_are_left_untouched() {
    let files = strings(&["/s/N78E030.hgt"]);
    let acts = place_cell("/s", "/d", "+70+030", &files, true, true);
    assert_eq!(
        acts,
        vec![Action::Rename {
            from: String::from("/s/N78E030.hgt"),
            to: String::from("/s/+70+030/N78E030.hgt"),
        }]
    );
}

#[test]
fn existing_link_path_gets_no_link_but_the_move_proceeds() {
    let files = strings(&["/s/N78E030.hgt"]);
    let acts = place_cell("/s", "/d", "+70+030", &files, false, true);
    assert_eq!(acts.len(), 2);
    assert_eq!(acts[0], Action::CreateDir(String::from("/s/+70+030")));
    assert!(matches!(acts[1], Action::Rename { .. }));
}

#[test]
fn placed_layout_plans_nothing() {
    let buckets = bucket(&Vec::new()).unwrap();
    assert_eq!(buckets.entries.len(), 0);
    let acts = place("/s", "/d", &buckets, &Vec::new(), &Vec::new());
    assert!(acts.is_empty());
}

#[test]
fn links_resolve_to_the_source_cell() {
    let files = strings(&["/s/N47E011.hgt"]);
    let buckets = bucket(&files).unwrap();
    let acts = place("/s", "/d", &buckets, &vec![false], &vec![false]);
    for a in &acts {
        if let Action::CreateLink { link, target } = a {
            assert_eq!(link.as_str(), "/d/+40+010");
            assert_eq!(target.as_str(), "/s/+40+010");
        }
    }
    assert!(acts.iter().any(|a| matches!(a, Action::CreateLink { .. })));
}

#[test]
fn lidar_files_filter_keeps_hgt_only_and_joins_under_source() {
    let paths = elevation::Paths::new(String::from("/s"), String::from("/d"));
    let entries = strings(&["N78E030.hgt", "readme.txt", "N63W023.hgt", "N50E000.HGT", "hgt"]);
    let files = paths.get_lidar_files(&entries);
    assert_eq!(files, strings(&["/s/N78E030.hgt", "/s/N63W023.hgt"]));
}

#[test]
fn paths_trait_exposes_the_same_filter_and_getters() {
    let paths = elevation::Paths::new(String::from("/s/"), String::from("/d"));
    assert_eq!(Paths::get_lidar_path(&paths).as_str(), "/s/");
    assert_eq!(Paths::get_elevation_data_path(&paths).as_str(), "/d");
    let entries = strings(&["N00E000.hgt"]);
    let files = Paths::get_lidar_files(&paths, &entries);
    assert_eq!(files, strings(&["/s/N00E000.hgt"]));
}

#[test]
fn join_handles_trailing_separator_and_empty_base() {
    assert_eq!(text::join("/s", "x"), "/s/x");
    assert_eq!(text::join("/s/", "x"), "/s/x");
    assert_eq!(text::join("", "x"), "x");
}

#[test]
fn stems_and_extensions_split_like_paths() {
    assert_eq!(text::file_stem("/a/b/N78E030.hgt"), "N78E030");
    assert_eq!(text::file_stem("N78E030.hgt"), "N78E030");
    assert_eq!(text::file_stem("/a/b/archive.tar.gz"), "archive.tar");
    let (stem, ext) = text::split_extension(".bashrc");
    assert_eq!(stem, ".bashrc");
    assert!(ext.is_none());
    let (stem, ext) = text::split_extension("N78E030.hgt");
    assert_eq!(stem, "N78E030");
    assert_eq!(ext.unwrap(), "hgt");
    assert_eq!(text::basename("/a/b/c.hgt"), "c.hgt");
    assert_eq!(text::basename("c.hgt"), "c.hgt");
}
