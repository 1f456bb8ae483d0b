use repo_status::cluster::{cluster_by_ancestor, first_ancestor, sorted_keys};
use repo_status::model::{ErrorKind, GitState, RepoResult};
use repo_status::text::{chars_of, comes_before};

fn row(directory: &str) -> RepoResult {
    RepoResult::success(
        String::from(directory),
        String::new(),
        GitState {
            branch: String::from("main"),
            last_commit_subject: String::from("Subject"),
            is_clean: true,
            has_unpushed: None,
        },
    )
}

fn keys(list: &[&str]) -> Vec<Vec<char>> {
    list.iter().map(|s| chars_of(s)).collect()
}

fn final_key(list: &[&str], k: usize) -> String {
    match first_ancestor(&keys(list), &chars_of(list[k])) {
        Some(at) => String::from(list[at]),
        None => String::from(list[k]),
    }
}

#[test]
fn a_nested_key_joins_the_outer_key() {
    let list = ["/ws/a", "/ws/a/sub"];
    assert_eq!(final_key(&list, 0), "/ws/a");
    assert_eq!(final_key(&list, 1), "/ws/a");
    let reversed = ["/ws/a/sub", "/ws/a"];
    assert_eq!(final_key(&reversed, 0), "/ws/a");
    assert_eq!(final_key(&reversed, 1), "/ws/a");
}

#[test]
fn sibling_keys_stay_apart() {
    let list = ["/ws/a", "/ws/b"];
    assert_eq!(final_key(&list, 0), "/ws/a");
    assert_eq!(final_key(&list, 1), "/ws/b");
}

#[test]
fn siblings_join_only_a_key_that_is_in_use() {
    let list = ["/ws/a", "/ws", "/ws/b"];
    assert_eq!(final_key(&list, 0), "/ws");
    assert_eq!(final_key(&list, 1), "/ws");
    assert_eq!(final_key(&list, 2), "/ws");
}

#[test]
fn of_several_ancestors_the_outermost_wins() {
    let list = ["/a/b/c", "/a/b", "/a", "/a/b/c/d"];
    for k in 0..4 {
        assert_eq!(final_key(&list, k), "/a");
    }
    let shuffled = ["/a/b/c/d", "/a", "/a/b/c", "/a/b"];
    for k in 0..4 {
        assert_eq!(final_key(&shuffled, k), "/a");
    }
}

#[test]
fn a_name_that_only_starts_alike_is_no_ancestor() {
    let list = ["/ws/ab", "/ws/a"];
    assert_eq!(final_key(&list, 0), "/ws/ab");
    assert_eq!(final_key(&list, 1), "/ws/a");
}

#[test]
fn the_root_is_above_every_absolute_key() {
    let list = ["/ws/a", "/", "/other"];
    assert_eq!(final_key(&list, 0), "/");
    assert_eq!(final_key(&list, 1), "/");
    assert_eq!(final_key(&list, 2), "/");
}

#[test]
fn the_empty_key_is_above_nothing() {
    let list = ["", "a", "/x"];
    assert_eq!(final_key(&list, 0), "");
    assert_eq!(final_key(&list, 1), "a");
    assert_eq!(final_key(&list, 2), "/x");
}

#[test]
fn repositories_below_nested_workspaces_share_the_outer_group() {
    let rows = vec![row("/ws/a/one"), row("/ws/a/sub/two")];
    let groups = cluster_by_ancestor(&rows);
    assert_eq!(groups.len(), 1);
    assert_eq!(groups[0].key, "/ws/a");
    assert_eq!(groups[0].name, "A");
    assert_eq!(groups[0].rows, rows);

    let reversed = vec![row("/ws/a/sub/two"), row("/ws/a/one")];
    let groups = cluster_by_ancestor(&reversed);
    assert_eq!(groups.len(), 1);
    assert_eq!(groups[0].key, "/ws/a");
    assert_eq!(groups[0].rows, reversed);
}

#[test]
fn a_directory_and_its_subdirectory_share_one_group() {
    for rows in [vec![row("/ws/a"), row("/ws/a/sub")], vec![row("/ws/a/sub"), row("/ws/a")]] {
        let groups = cluster_by_ancestor(&rows);
        assert_eq!(groups.len(), 1);
        assert_eq!(groups[0].key, "/ws");
        assert_eq!(groups[0].name, "WS");
        assert_eq!(groups[0].rows, rows);
    }
}

#[test]
fn repositories_below_sibling_workspaces_get_two_groups() {
    let rows = vec![row("/ws/b/two"), row("/ws/a/one")];
    let groups = cluster_by_ancestor(&rows);
    assert_eq!(groups.len(), 2);
    assert_eq!(groups[0].key, "/ws/a");
    assert_eq!(groups[0].name, "A");
    assert_eq!(groups[0].rows, vec![rows[1].clone()]);
    assert_eq!(groups[1].key, "/ws/b");
    assert_eq!(groups[1].name, "B");
    assert_eq!(groups[1].rows, vec![rows[0].clone()]);
}

#[test]
fn sibling_directories_share_the_group_of_their_parent() {
    let rows = vec![row("/ws/a"), row("/ws/b")];
    let groups = cluster_by_ancestor(&rows);
    assert_eq!(groups.len(), 1);
    assert_eq!(groups[0].key, "/ws");
    assert_eq!(groups[0].rows, rows);
}

#[test]
fn groups_come_in_ascending_order_of_their_keys() {
    let rows = vec![
        row("/z/r1"),
        row("/b/r2"),
        row("/m/x/r3"),
        row("/b/r4"),
        row("/a/r5"),
        row("/m/r6"),
    ];
    let groups = cluster_by_ancestor(&rows);
    let found: Vec<&str> = groups.iter().map(|g| g.key.as_str()).collect();
    assert_eq!(found, vec!["/a", "/b", "/m", "/z"]);
    assert_eq!(groups[1].rows, vec![rows[1].clone(), rows[3].clone()]);
    assert_eq!(groups[2].rows, vec![rows[2].clone(), rows[5].clone()]);
}

#[test]
fn rows_that_failed_are_clustered_by_their_path_too() {
    let missing = RepoResult::failure(
        String::from("/repos/y"),
        String::new(),
        ErrorKind::InvalidDirectory,
    );
    let rows = vec![row("/repos/x"), missing];
    let groups = cluster_by_ancestor(&rows);
    assert_eq!(groups.len(), 1);
    assert_eq!(groups[0].key, "/repos");
    assert_eq!(groups[0].rows.len(), 2);
}

#[test]
fn clustering_nothing_gives_nothing() {
    assert!(cluster_by_ancestor(&Vec::new()).is_empty());
}

#[test]
fn comes_before_is_the_order_of_code_points() {
    let lt = |a: &str, b: &str| comes_before(&chars_of(a), &chars_of(b));
    assert!(lt("", "a"));
    assert!(lt("/a", "/b"));
    assert!(lt("/a", "/a/b"));
    assert!(lt("/a/b", "/ab"));
    assert!(lt("Z", "a"));
    assert!(lt("z", "é"));
    assert!(!lt("a", "a"));
    assert!(!lt("", ""));
    assert!(!lt("b", "a"));
    assert!(!lt("/a/b", "/a"));
}

#[test]
fn sorted_keys_are_ascending_without_repeats() {
    let keys: Vec<String> =
        ["/m", "/a", "/z", "/a", "/m/x", "/m"].iter().map(|s| String::from(*s)).collect();
    assert_eq!(sorted_keys(&keys), vec!["/a", "/m", "/m/x", "/z"]);
    assert!(sorted_keys(&Vec::new()).is_empty());
}

#[test]
fn first_ancestor_of_a_key_that_is_not_in_use() {
    let list = keys(&["/ws", "/ws/a", "/other"]);
    assert_eq!(first_ancestor(&list, &chars_of("/ws/a/deep/er")), Some(0));
    assert_eq!(first_ancestor(&list, &chars_of("/elsewhere")), None);
    assert_eq!(first_ancestor(&list, &chars_of("/ws")), None);
    assert_eq!(first_ancestor(&Vec::new(), &chars_of("/ws")), None);
}
