use distributor::distributor_config::{
    DistributorConfigError, DistributorConfiguration, DistributorItem, DEFAULT_CONFIG_FILE_NAME,
};

fn item(name: &str, root: &str, ignore: Vec<&str>, to: Vec<&str>) -> DistributorItem {
    DistributorItem {
        name: name.to_string(),
        root: root.to_string(),
        ignore: ignore.into_iter().map(|s| s.to_string()).collect(),
        to: to.into_iter().map(|s| s.to_string()).collect(),
    }
}

#[test]
fn test_update_config_add() {
    let mut config = DistributorConfiguration {
        items: vec![item("test", "resource", vec![], vec!["test-target/tar1"])],
    };

    let _ = config.add_ignore("test", "template.txt");
    let _ = config.add_target("test", "test-target/tar2");

    assert_eq!(
        config,
        DistributorConfiguration {
            items: vec![item(
                "test",
                "resource",
                vec!["template.txt"],
                vec!["test-target/tar1", "test-target/tar2"],
            )],
        }
    );
}

#[test]
fn test_update_config_remove() {
    let mut config = DistributorConfiguration {
        items: vec![item(
            "test",
            "resource",
            vec!["template.txt", "template2.txt"],
            vec!["test-target/tar1", "test-target/tar2"],
        )],
    };

    let _ = config.remove_ignore("test", "template2.txt");
    let _ = config.remove_target("test", "test-target/tar2");

    assert_eq!(
        config,
        DistributorConfiguration {
            items: vec![item("test", "resource", vec!["template.txt"], vec!["test-target/tar1"])],
        }
    );

    let _ = config.remove_distributor("test");

    assert_eq!(config, DistributorConfiguration { items: vec![] });
}

#[test]
fn add_distributor_rejects_a_taken_name() {
    let mut config = DistributorConfiguration { items: vec![] };
    assert_eq!(config.add_distributor("a", "src"), Ok(()));
    assert!(config.has_distributor("a"));
    assert!(!config.has_distributor("b"));
    assert_eq!(config.add_distributor("a", "other"), Err(DistributorConfigError::Existed));
    assert_eq!(config, DistributorConfiguration { items: vec![item("a", "src", vec![], vec![])] });
}

#[test]
fn edits_on_a_missing_item_report_not_exist() {
    let mut config = DistributorConfiguration { items: vec![item("a", "src", vec![], vec![])] };
    assert_eq!(config.remove_distributor("b"), Err(DistributorConfigError::NotExist));
    assert_eq!(config.add_ignore("b", "*.tmp"), Err(DistributorConfigError::NotExist));
    assert_eq!(config.remove_ignore("a", "*.tmp"), Err(DistributorConfigError::NotExist));
    assert_eq!(config.add_target("b", "out"), Err(DistributorConfigError::NotExist));
    assert_eq!(config.remove_target("a", "out"), Err(DistributorConfigError::NotExist));
    assert_eq!(config.items.len(), 1);
}

#[test]
fn duplicate_ignore_and_target_are_refused() {
    let mut config = DistributorConfiguration { items: vec![item("a", "src", vec!["*.tmp"], vec!["out/x"])] };
    assert_eq!(config.add_ignore("a", "*.tmp"), Err(DistributorConfigError::Existed));
    // Paths compare by components, so a trailing separator names the same path.
    assert_eq!(config.add_target("a", "out/x/"), Err(DistributorConfigError::Existed));
    assert_eq!(config.remove_target("a", "out//x"), Ok(()));
    assert!(config.items[0].to.is_empty());
}

#[test]
fn edits_touch_only_the_first_item_of_that_name() {
    let mut config = DistributorConfiguration {
        items: vec![item("a", "one", vec![], vec![]), item("b", "two", vec![], vec![])],
    };
    assert_eq!(config.add_target("b", "out"), Ok(()));
    assert_eq!(config.items[0], item("a", "one", vec![], vec![]));
    assert_eq!(config.items[1], item("b", "two", vec![], vec!["out"]));
}

#[test]
fn iter_yields_items_in_order() {
    let config = DistributorConfiguration {
        items: vec![item("a", "one", vec![], vec![]), item("b", "two", vec![], vec![])],
    };
    let names: Vec<&str> = config.iter().map(|i| i.name.as_str()).collect();
    assert_eq!(names, vec!["a", "b"]);
}

#[test]
fn ignore_globs_are_anchored_at_the_root() {
    let it = item("a", "resource", vec!["*.tmp", "template.txt"], vec![]);
    assert_eq!(it.ignore_globs(), vec!["resource/**/*.tmp".to_string(), "resource/**/template.txt".to_string()]);
}

#[test]
fn save_location_picks_a_file_inside_a_directory() {
    assert_eq!(DistributorConfiguration::save_location("conf/my.toml", false), "conf/my.toml");
    assert_eq!(DistributorConfiguration::save_location("conf", true), "conf");
    assert_eq!(
        DistributorConfiguration::save_location("conf", false),
        format!("conf/{}", DEFAULT_CONFIG_FILE_NAME)
    );
}
