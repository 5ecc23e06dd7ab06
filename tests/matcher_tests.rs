use pj::matcher::{rank, Matcher};
use pj::project::Project;

fn create_test_project(path: &str, display_path: &str) -> Project {
    Project { path: path.to_string(), display_path: display_path.to_string() }
}

#[test]
fn test_matcher_exact_match() {
    let mut matcher = Matcher::new();
    let projects = vec![
        create_test_project("/home/user/projects/myapp", "myapp"),
        create_test_project("/home/user/projects/otherapp", "otherapp"),
    ];

    matcher.add_projects(projects);
    let matches = matcher.find_matches("myapp");

    assert_eq!(matches.len(), 1);
    assert_eq!(matches[0].display_path, "myapp");
}

#[test]
fn test_matcher_fuzzy_match() {
    let mut matcher = Matcher::new();
    let projects = vec![
        create_test_project("/home/user/projects/my-awesome-app", "my-awesome-app"),
        create_test_project("/home/user/projects/other-app", "other-app"),
    ];

    matcher.add_projects(projects);
    let matches = matcher.find_matches("maa");

    assert!(matches.iter().any(|p| p.display_path == "my-awesome-app"));
    assert!(!matches.iter().any(|p| p.display_path == "other-app"));
}

#[test]
fn test_matcher_case_insensitive() {
    let mut matcher = Matcher::new();
    let projects = vec![
        create_test_project("/home/user/projects/MyApp", "MyApp"),
        create_test_project("/home/user/projects/other", "other"),
    ];

    matcher.add_projects(projects);
    let matches = matcher.find_matches("myapp");

    assert_eq!(matches.len(), 1);
    assert_eq!(matches[0].display_path, "MyApp");
}

#[test]
fn uppercase_query_is_case_sensitive() {
    let mut matcher = Matcher::new();
    matcher.add_projects(vec![
        create_test_project("/p/MyApp", "MyApp"),
        create_test_project("/p/myapp", "myapp"),
    ]);
    let matches = matcher.find_matches("MyApp");
    assert_eq!(matches.len(), 1);
    assert_eq!(matches[0].path, "/p/MyApp");
}

#[test]
fn test_matcher_nested_path_match() {
    let mut matcher = Matcher::new();
    let projects = vec![
        create_test_project("/home/user/projects/ai/decree-ng", "ai/decree-ng"),
        create_test_project("/home/user/projects/web/app", "web/app"),
    ];

    matcher.add_projects(projects);
    let matches = matcher.find_matches("ai/dec");

    assert_eq!(matches.len(), 1);
    assert_eq!(matches[0].display_path, "ai/decree-ng");
}

#[test]
fn test_matcher_multiple_matches() {
    let mut matcher = Matcher::new();
    let projects = vec![
        create_test_project("/home/user/projects/app1", "app1"),
        create_test_project("/home/user/projects/app2", "app2"),
        create_test_project("/home/user/projects/app3", "app3"),
        create_test_project("/home/user/projects/other", "other"),
    ];

    matcher.add_projects(projects);
    let matches = matcher.find_matches("app");

    assert_eq!(matches.len(), 3);
    assert!(matches.iter().all(|p| p.display_path.contains("app")));
}

#[test]
fn equal_scores_are_ordered_by_display_path() {
    let mut matcher = Matcher::new();
    matcher.add_projects(vec![
        create_test_project("/p/app3", "app3"),
        create_test_project("/p/app1", "app1"),
        create_test_project("/p/app2", "app2"),
    ]);
    let matches = matcher.find_matches("app");
    let names: Vec<&str> = matches.iter().map(|p| p.display_path.as_str()).collect();
    assert_eq!(names, vec!["app1", "app2", "app3"]);
}

#[test]
fn test_matcher_no_matches() {
    let mut matcher = Matcher::new();
    let projects = vec![
        create_test_project("/home/user/projects/app1", "app1"),
        create_test_project("/home/user/projects/app2", "app2"),
    ];

    matcher.add_projects(projects);
    let matches = matcher.find_matches("nonexistent");

    assert_eq!(matches.len(), 0);
}

#[test]
fn test_matcher_empty_pattern() {
    let mut matcher = Matcher::new();
    let projects = vec![
        create_test_project("/home/user/projects/app1", "app1"),
        create_test_project("/home/user/projects/app2", "app2"),
    ];

    matcher.add_projects(projects);
    let matches = matcher.find_matches("");

    assert_eq!(matches.len(), 2);
}

#[test]
fn empty_pattern_lists_shorter_then_lexicographic() {
    let mut matcher = Matcher::new();
    matcher.add_projects(vec![
        create_test_project("/p/zeta", "zeta"),
        create_test_project("/p/longer-name", "longer-name"),
        create_test_project("/p/alpha", "alpha"),
        create_test_project("/p/ab", "ab"),
    ]);
    let matches = matcher.find_matches("");
    let names: Vec<&str> = matches.iter().map(|p| p.display_path.as_str()).collect();
    assert_eq!(names, vec!["ab", "zeta", "alpha", "longer-name"]);
}

#[test]
fn empty_matcher_returns_nothing() {
    let mut matcher = Matcher::new();
    assert!(matcher.find_matches("").is_empty());
    assert!(matcher.find_matches("app").is_empty());
}

#[test]
fn test_matcher_partial_path_match() {
    let mut matcher = Matcher::new();
    let projects = vec![
        create_test_project("/home/user/projects/rust/my-project", "rust/my-project"),
        create_test_project("/home/user/projects/go/my-project", "go/my-project"),
        create_test_project("/home/user/projects/js/other", "js/other"),
    ];

    matcher.add_projects(projects);
    let matches = matcher.find_matches("rust");

    assert_eq!(matches.len(), 1);
    assert_eq!(matches[0].display_path, "rust/my-project");
}

#[test]
fn test_matcher_acronym_match() {
    let mut matcher = Matcher::new();
    let projects = vec![
        create_test_project("/home/user/projects/my-awesome-project", "my-awesome-project"),
        create_test_project("/home/user/projects/other", "other"),
    ];

    matcher.add_projects(projects);
    let matches = matcher.find_matches("map");

    assert!(matches.iter().any(|p| p.display_path == "my-awesome-project"));
}

#[test]
fn exact_query_picks_one_among_similar_names() {
    let mut matcher = Matcher::new();
    matcher.add_projects(vec![
        create_test_project("/p/decree", "decree"),
        create_test_project("/p/decree-ng", "decree-ng"),
        create_test_project("/p/decrees", "decrees"),
    ]);
    let matches = matcher.find_matches("decree-ng");
    assert_eq!(matches.len(), 1);
    assert_eq!(matches[0].display_path, "decree-ng");
}

#[test]
fn same_query_twice_gives_same_order() {
    let mut matcher = Matcher::new();
    matcher.add_projects(vec![
        create_test_project("/p/web/app", "web/app"),
        create_test_project("/p/apps", "apps"),
        create_test_project("/p/my-app", "my-app"),
        create_test_project("/q/my-app", "my-app"),
    ]);
    let first: Vec<String> = matcher.find_matches("app").into_iter().map(|p| p.path).collect();
    let second: Vec<String> = matcher.find_matches("app").into_iter().map(|p| p.path).collect();
    assert_eq!(first.len(), 4);
    assert_eq!(first, second);
}

#[test]
fn adding_a_known_path_again_adds_nothing() {
    let mut matcher = Matcher::new();
    matcher.add_projects(vec![create_test_project("/p/app", "app")]);
    matcher.add_projects(vec![
        create_test_project("/p/app", "other-name"),
        create_test_project("/p/tool", "tool"),
        create_test_project("/p/tool", "tool"),
    ]);
    let all = matcher.find_matches("");
    assert_eq!(all.len(), 2);
    assert!(all.iter().any(|p| p.display_path == "app"));
    assert!(!all.iter().any(|p| p.display_path == "other-name"));
}

#[test]
fn rank_orders_by_score_then_length_then_text() {
    let candidates = vec![
        create_test_project("/p/bb", "bb"),
        create_test_project("/p/a", "a"),
        create_test_project("/p/c", "c"),
        create_test_project("/p/aa", "aa"),
        create_test_project("/p/zz", "zz"),
    ];
    let scores = vec![Some(10), Some(10), None, Some(10), Some(40)];
    assert_eq!(rank(&candidates, &scores), vec![4, 1, 3, 0]);
}

#[test]
fn rank_keeps_list_order_for_identical_candidates() {
    let candidates = vec![
        create_test_project("/p/a", "a"),
        create_test_project("/p/a", "a"),
    ];
    let scores = vec![Some(3), Some(3)];
    assert_eq!(rank(&candidates, &scores), vec![0, 1]);
    assert!(rank(&candidates, &vec![None, None]).is_empty());
}

#[test]
fn contiguous_match_ranks_before_scattered_one() {
    let mut matcher = Matcher::new();
    matcher.add_projects(vec![
        create_test_project("/p/a-w-e-s-o-m-e", "a-w-e-s-o-m-e"),
        create_test_project("/p/awesome", "awesome"),
    ]);
    let matches = matcher.find_matches("awesome");
    assert_eq!(matches.len(), 2);
    assert_eq!(matches[0].display_path, "awesome");
}

#[test]
fn space_in_query_is_an_ordinary_character() {
    let mut matcher = Matcher::new();
    matcher.add_projects(vec![
        create_test_project("/p/web/app", "web/app"),
        create_test_project("/p/web app", "web app"),
    ]);
    let matches = matcher.find_matches("web app");
    assert_eq!(matches.len(), 1);
    assert_eq!(matches[0].display_path, "web app");
}

#[test]
fn operator_characters_in_query_match_literally() {
    let mut matcher = Matcher::new();
    matcher.add_projects(vec![
        create_test_project("/p/app", "app"),
        create_test_project("/p/!app", "!app"),
        create_test_project("/p/app$", "app$"),
    ]);
    let matches = matcher.find_matches("!app");
    assert_eq!(matches.len(), 1);
    assert_eq!(matches[0].display_path, "!app");
    let matches = matcher.find_matches("app$");
    assert_eq!(matches.len(), 1);
    assert_eq!(matches[0].display_path, "app$");
}

#[test]
fn longest_allowed_query_scores_without_overflow() {
    let query = "a".repeat(pj::matcher::MAX_QUERY_LEN);
    let text = format!("x{}", "a".repeat(pj::matcher::MAX_QUERY_LEN));
    let mut matcher = Matcher::new();
    matcher.add_projects(vec![create_test_project("/p/long", &text)]);
    assert_eq!(matcher.find_matches(&query).len(), 1);
}
