use indexmap::IndexMap;
use repo_status::config::{
    config_file, default_file, plan_flat, plan_sections, section_names, FlatConfig,
    SectionedConfig,
};
use repo_status::model::{ErrorKind, ProbeInput, RepoResult};

fn sections(list: &[(&str, &[(&str, &str)])]) -> SectionedConfig {
    let mut outer = IndexMap::new();
    for (name, entries) in list {
        let mut inner = IndexMap::new();
        for (label, directory) in entries.iter() {
            inner.insert(String::from(*label), String::from(*directory));
        }
        outer.insert(String::from(*name), inner);
    }
    SectionedConfig { sections: outer }
}

fn input(directory: &str, group: &str) -> ProbeInput {
    ProbeInput { directory: String::from(directory), group: Some(String::from(group)) }
}

fn failed(entry: &ProbeInput) -> RepoResult {
    RepoResult::failure(
        entry.directory.clone(),
        entry.group.clone().unwrap_or_default(),
        ErrorKind::NotARepository,
    )
}

#[test]
fn the_plan_follows_the_configuration() {
    let config = sections(&[
        ("work", &[("api", "/w/api"), ("web", "/w/web")]),
        ("home", &[("dots", "/h/dotfiles")]),
    ]);
    assert_eq!(
        config.plan(),
        vec![input("/w/api", "work"), input("/w/web", "work"), input("/h/dotfiles", "home")]
    );
}

#[test]
fn the_plan_follows_a_permuted_configuration() {
    let config = sections(&[
        ("home", &[("dots", "/h/dotfiles")]),
        ("work", &[("web", "/w/web"), ("api", "/w/api")]),
    ]);
    assert_eq!(
        config.plan(),
        vec![input("/h/dotfiles", "home"), input("/w/web", "work"), input("/w/api", "work")]
    );
}

#[test]
fn an_empty_section_asks_for_nothing() {
    let config = sections(&[("none", &[]), ("work", &[("api", "/w/api")])]);
    assert_eq!(config.plan(), vec![input("/w/api", "work")]);
    assert!(sections(&[]).plan().is_empty());
}

#[test]
fn a_report_keeps_the_order_of_the_configuration() {
    for order in [["work", "home", "oss"], ["oss", "home", "work"], ["home", "oss", "work"]] {
        let list: Vec<(&str, &[(&str, &str)])> = order
            .iter()
            .map(|name| {
                let entries: &[(&str, &str)] = match *name {
                    "work" => &[("api", "/w/api"), ("web", "/w/web")],
                    "home" => &[("dots", "/h/dots")],
                    _ => &[("tool", "/o/tool"), ("lib", "/o/lib"), ("app", "/o/app")],
                };
                (*name, entries)
            })
            .collect();
        let config = sections(&list);
        let plan = config.plan();
        let rows: Vec<RepoResult> = plan.iter().map(failed).collect();
        let groups = config.report(&rows);
        let found: Vec<&str> = groups.iter().map(|g| g.key.as_str()).collect();
        assert_eq!(found, order.to_vec());
        let mut next = 0;
        for (group, (_, entries)) in groups.iter().zip(list.iter()) {
            assert_eq!(group.rows.len(), entries.len());
            for (row, (_, directory)) in group.rows.iter().zip(entries.iter()) {
                assert_eq!(row.directory(), directory);
                assert_eq!(*row, rows[next]);
                next += 1;
            }
        }
        assert_eq!(next, rows.len());
    }
}

#[test]
fn a_report_has_no_group_for_a_section_without_rows() {
    let config = sections(&[("none", &[]), ("work", &[("api", "/w/api")])]);
    let rows: Vec<RepoResult> = config.plan().iter().map(failed).collect();
    let groups = config.report(&rows);
    assert_eq!(groups.len(), 1);
    assert_eq!(groups[0].key, "work");
    assert_eq!(groups[0].name, "WORK");
}

#[test]
fn plain_section_lists_are_planned_in_order() {
    let list = vec![
        (String::from("a"), vec![(String::from("x"), String::from("/1"))]),
        (String::from("b"), Vec::new()),
        (
            String::from("c"),
            vec![(String::from("y"), String::from("/2")), (String::from("z"), String::from("/3"))],
        ),
    ];
    assert_eq!(section_names(&list), vec!["a", "b", "c"]);
    assert_eq!(plan_sections(&list), vec![input("/1", "a"), input("/2", "c"), input("/3", "c")]);
}

#[test]
fn a_flat_plan_has_no_sections() {
    let directories = vec![String::from("/repos/x"), String::from("/repos/y")];
    let expected = vec![
        ProbeInput { directory: String::from("/repos/x"), group: None },
        ProbeInput { directory: String::from("/repos/y"), group: None },
    ];
    assert_eq!(plan_flat(&directories), expected);
    assert_eq!(FlatConfig { directories }.plan(), expected);
}

#[test]
fn the_default_file_depends_on_the_user() {
    assert_eq!(default_file("zach", true), "config-home.toml");
    assert_eq!(default_file("zach", false), "config-home.json");
    assert_eq!(default_file("alice", true), "config-work.toml");
    assert_eq!(default_file("unknown", false), "config-work.json");
    assert_eq!(default_file("", true), "config-work.toml");
    assert_eq!(default_file("Zach", true), "config-work.toml");
}

#[test]
fn a_named_file_comes_first_then_the_environment() {
    let named = Some(String::from("mine.toml"));
    let env = Some(String::from("env.toml"));
    assert_eq!(config_file(named.clone(), env.clone(), "zach", true), "mine.toml");
    assert_eq!(config_file(named, None, "zach", true), "mine.toml");
    assert_eq!(config_file(None, env, "zach", true), "env.toml");
    assert_eq!(config_file(None, None, "zach", true), "config-home.toml");
    assert_eq!(config_file(None, None, "bob", false), "config-work.json");
}
