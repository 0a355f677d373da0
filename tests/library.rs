use dux::{
    check_source_dir, config_path, extension, file_name, find_bucket, map_files_by_extension,
    move_target, parse_config, plan_moves, resolve_destination, split_extensions, Config,
    PathKind, SourceError,
};

fn strings(v: &[&str]) -> Vec<String> {
    v.iter().map(|s| s.to_string()).collect()
}

fn pairs(v: &[(&str, &str)]) -> Vec<(String, String)> {
    v.iter().map(|(k, x)| (k.to_string(), x.to_string())).collect()
}

fn sample_config(base: &str, mapping: &[(&str, &str)]) -> Config {
    parse_config(base.to_string(), pairs(mapping), Vec::new())
}

#[test]
fn extension_is_after_last_dot() {
    assert_eq!(extension("src/a.jpg"), Some("jpg".to_string()));
    assert_eq!(extension("archive.tar.gz"), Some("gz".to_string()));
    assert_eq!(extension("/tmp/photos/IMG.JPG"), Some("JPG".to_string()));
    assert_eq!(extension("notes."), Some(String::new()));
}

#[test]
fn extension_absent_without_dot_in_name() {
    assert_eq!(extension("README"), None);
    assert_eq!(extension("dir.d/Makefile"), None);
    assert_eq!(extension(""), None);
}

#[test]
fn file_name_is_last_component() {
    assert_eq!(file_name("/a/b/c.txt"), "c.txt");
    assert_eq!(file_name("c.txt"), "c.txt");
    assert_eq!(file_name("dir/"), "");
}

#[test]
fn classification_groups_by_extension() {
    let files = strings(&["s/a.jpg", "s/b.png", "s/sub/c.jpg", "s/Makefile", "s/d.JPG"]);
    let buckets = map_files_by_extension(files);
    assert_eq!(buckets.len(), 3);
    let jpg = find_bucket(&buckets, &"jpg".to_string()).unwrap();
    assert_eq!(buckets[jpg].files, strings(&["s/a.jpg", "s/sub/c.jpg"]));
    let png = find_bucket(&buckets, &"png".to_string()).unwrap();
    assert_eq!(buckets[png].files, strings(&["s/b.png"]));
    let upper = find_bucket(&buckets, &"JPG".to_string()).unwrap();
    assert_eq!(buckets[upper].files, strings(&["s/d.JPG"]));
    for b in &buckets {
        assert!(!b.files.contains(&"s/Makefile".to_string()));
    }
}

#[test]
fn classification_of_nothing_is_empty() {
    assert!(map_files_by_extension(Vec::new()).is_empty());
    assert!(map_files_by_extension(strings(&["a", "b/c"])).is_empty());
}

#[test]
fn destination_with_empty_base() {
    assert_eq!(resolve_destination("", "photos"), "photos");
}

#[test]
fn destination_under_base() {
    assert_eq!(resolve_destination("/home/user/archive", "photos"), "/home/user/archive/photos");
    assert_eq!(resolve_destination("/home/user/archive/", "photos"), "/home/user/archive/photos");
    assert_eq!(resolve_destination("/home/user/archive", "/srv/photos"), "/srv/photos");
}

#[test]
fn move_target_keeps_file_name() {
    assert_eq!(move_target("images", "src/sub/a.jpg"), "images/a.jpg");
    assert_eq!(move_target("", "src/a.jpg"), "a.jpg");
}

#[test]
fn split_keeps_tokens_verbatim() {
    assert_eq!(split_extensions("jpg,png,gif"), strings(&["jpg", "png", "gif"]));
    assert_eq!(split_extensions("txt"), strings(&["txt"]));
    assert_eq!(split_extensions("a, b,,c"), strings(&["a", " b", "", "c"]));
    assert_eq!(split_extensions(""), strings(&[""]));
}

#[test]
fn config_path_prefers_given() {
    assert_eq!(config_path(Some("x.json".to_string()), "d.json".to_string()), "x.json");
    assert_eq!(config_path(None, "d.json".to_string()), "d.json");
}

#[test]
fn parse_config_later_key_wins() {
    let c = parse_config(
        "/base".to_string(),
        pairs(&[("jpg", "images"), ("txt", "docs"), ("jpg", "pictures")]),
        pairs(&[("jpeg", "jpg")]),
    );
    assert_eq!(c.base(), "/base");
    assert_eq!(c.mapping(), &pairs(&[("jpg", "pictures"), ("txt", "docs")]));
    assert_eq!(c.alias(), &pairs(&[("jpeg", "jpg")]));
}

#[test]
fn config_round_trip() {
    let c = parse_config(
        "b".to_string(),
        pairs(&[("jpg,png", "images"), ("txt", "docs")]),
        pairs(&[("jpeg", "jpg")]),
    );
    let (base, mapping, alias) = c.into_parts();
    let again = parse_config(base.clone(), mapping.clone(), alias.clone());
    assert_eq!(again.base(), &base);
    assert_eq!(again.mapping(), &mapping);
    assert_eq!(again.alias(), &alias);
}

#[test]
fn describe_lists_fields() {
    let c = parse_config(
        "/b".to_string(),
        pairs(&[("jpg,png", "images")]),
        pairs(&[("jpeg", "jpg")]),
    );
    assert_eq!(c.describe(), "base: /b\nmapping:\n  jpg,png: images\nAlias:\n  jpeg: jpg\n");
}

#[test]
fn organize_scenario_moves_matched_files() {
    let c = sample_config("", &[("jpg,png", "images"), ("txt", "docs")]);
    let plan = plan_moves(&c, strings(&["src/a.jpg", "src/b.png", "src/c.txt"]));
    assert_eq!(plan.len(), 3);
    assert_eq!(plan[0].destination, "images");
    assert_eq!(plan[0].files, strings(&["src/a.jpg"]));
    assert_eq!(plan[1].destination, "images");
    assert_eq!(plan[1].files, strings(&["src/b.png"]));
    assert_eq!(plan[2].destination, "docs");
    assert_eq!(plan[2].files, strings(&["src/c.txt"]));
}

#[test]
fn organize_leaves_unmatched_extension() {
    let c = sample_config("", &[("jpg,png", "images")]);
    let plan = plan_moves(&c, strings(&["src/a.jpg", "src/d.zip"]));
    assert_eq!(plan.len(), 1);
    assert_eq!(plan[0].files, strings(&["src/a.jpg"]));
    assert!(plan.iter().all(|t| !t.files.contains(&"src/d.zip".to_string())));
}

#[test]
fn organize_with_base_joins_destination() {
    let c = sample_config("/home/user/archive", &[("jpg", "photos")]);
    let plan = plan_moves(&c, strings(&["s/a.jpg", "s/x/b.jpg"]));
    assert_eq!(plan.len(), 1);
    assert_eq!(plan[0].destination, "/home/user/archive/photos");
    assert_eq!(plan[0].files, strings(&["s/a.jpg", "s/x/b.jpg"]));
}

#[test]
fn second_run_moves_nothing() {
    let c = sample_config("", &[("jpg,png", "images"), ("txt", "docs")]);
    let first = plan_moves(&c, strings(&["src/a.jpg", "src/b.png", "src/c.txt", "src/d.zip"]));
    assert_eq!(first.len(), 3);
    let plan = plan_moves(&c, strings(&["src/d.zip"]));
    assert!(plan.is_empty());
    assert!(plan_moves(&c, Vec::new()).is_empty());
}

#[test]
fn source_must_be_directory() {
    assert_eq!(check_source_dir("src", PathKind::Directory), Ok(()));
    assert_eq!(
        check_source_dir("a.txt", PathKind::Other),
        Err(SourceError::NotADirectory("a.txt".to_string()))
    );
    assert_eq!(
        check_source_dir("gone", PathKind::Missing),
        Err(SourceError::NotFound("gone".to_string()))
    );
}
