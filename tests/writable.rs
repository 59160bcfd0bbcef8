use libloadorder::enums::{Error, GameId};
use libloadorder::load_order::MAX_ACTIVE_NORMAL_PLUGINS;
use libloadorder::plugin::Plugin;
use libloadorder::settings::GameSettings;
use libloadorder::timestamp_based::TimestampBasedLoadOrder;

fn master_file(game_id: GameId) -> &'static str {
    match game_id {
        GameId::Skyrim => "Skyrim.esm",
        _ => "Oblivion.esm",
    }
}

fn plugin(game_id: GameId, name: &str, master: bool, time: i64) -> Plugin {
    Plugin::new(name, game_id, master, false, false, time, 100)
}

fn prepare(game_id: GameId) -> TimestampBasedLoadOrder {
    let implicitly_active_plugins = if game_id == GameId::Skyrim {
        vec!["Skyrim.esm".to_string(), "Update.esm".to_string()]
    } else {
        Vec::new()
    };
    let settings = GameSettings {
        id: game_id,
        master_file: master_file(game_id).to_string(),
        implicitly_active_plugins,
        plugins_directory: "Data".to_string(),
        active_plugins_file: "plugins.txt".to_string(),
    };
    let mut load_order = TimestampBasedLoadOrder::new(settings);
    load_order.plugin_files = vec![
        plugin(game_id, "Blank.esm", true, 0),
        plugin(game_id, master_file(game_id), true, 60),
        plugin(game_id, "Blank - Master Dependent.esp", false, 60),
        plugin(game_id, "Blank - Different.esp", false, 60),
        plugin(game_id, "Blank.esp", false, 120),
        plugin(game_id, "Bl\u{e0}\u{f1}k.esp", false, 120),
    ];
    let mut blank = load_order.plugin_file("Blank.esp").unwrap();
    blank.activate();
    load_order.plugins = vec![
        load_order.plugin_file(master_file(game_id)).unwrap(),
        blank,
        load_order.plugin_file("Blank - Different.esp").unwrap(),
    ];
    load_order
}

/// Puts a copy of `Blank.esp` under another name in the plugins directory.
fn copy_blank_esp(load_order: &mut TimestampBasedLoadOrder, name: &str) {
    load_order.plugin_files.push(plugin(GameId::Oblivion, name, false, 120));
}

#[test]
fn activate_should_activate_the_plugin_with_the_given_filename() {
    let mut load_order = prepare(GameId::Oblivion);

    assert!(load_order.activate("Blank - Different.esp").is_ok());
    assert!(load_order.is_active("Blank - Different.esp"));
}

#[test]
fn activate_should_error_if_the_plugin_is_not_valid() {
    let mut load_order = prepare(GameId::Oblivion);

    assert!(load_order.activate("missing.esp").is_err());
    assert!(load_order.index_of("missing.esp").is_none());
}

#[test]
fn activate_should_insert_a_master_before_non_masters_if_it_is_not_present() {
    let mut load_order = prepare(GameId::Oblivion);

    assert!(load_order.activate("Blank.esm").is_ok());
    assert!(load_order.is_active("Blank.esm"));
    assert_eq!(1, load_order.index_of("Blank.esm").unwrap());
}

#[test]
fn activate_should_append_a_non_master_if_it_is_not_present() {
    let mut load_order = prepare(GameId::Oblivion);

    assert!(load_order.activate("Blank - Master Dependent.esp").is_ok());
    assert!(load_order.is_active("Blank - Master Dependent.esp"));
    assert_eq!(
        3,
        load_order.index_of("Blank - Master Dependent.esp").unwrap()
    );
}

#[test]
fn activate_should_be_case_insensitive() {
    let mut load_order = prepare(GameId::Oblivion);

    assert!(load_order.activate("Blank - different.esp").is_ok());
    assert!(load_order.is_active("Blank - Different.esp"));
}

#[test]
fn activate_should_throw_if_increasing_the_number_of_active_plugins_past_the_limit() {
    let mut load_order = prepare(GameId::Oblivion);

    for i in 0..(MAX_ACTIVE_NORMAL_PLUGINS - 1) {
        let plugin = format!("{}.esp", i);
        copy_blank_esp(&mut load_order, &plugin);
        load_order.activate(&plugin).unwrap();
    }

    assert!(load_order.activate("Blank - Different.esp").is_err());
    assert!(!load_order.is_active("Blank - Different.esp"));
}

#[test]
fn activate_should_succeed_if_at_the_active_plugins_limit_and_the_plugin_is_already_active() {
    let mut load_order = prepare(GameId::Oblivion);

    for i in 0..(MAX_ACTIVE_NORMAL_PLUGINS - 1) {
        let plugin = format!("{}.esp", i);
        copy_blank_esp(&mut load_order, &plugin);
        load_order.activate(&plugin).unwrap();
    }

    assert!(load_order.is_active("Blank.esp"));
    assert!(load_order.activate("Blank.esp").is_ok());
}

#[test]
fn deactivate_should_deactivate_the_plugin_with_the_given_filename() {
    let mut load_order = prepare(GameId::Oblivion);

    assert!(load_order.is_active("Blank.esp"));
    assert!(load_order.deactivate("Blank.esp").is_ok());
    assert!(!load_order.is_active("Blank.esp"));
}

#[test]
fn deactivate_should_error_if_the_plugin_is_not_in_the_load_order() {
    let mut load_order = prepare(GameId::Oblivion);

    assert!(load_order.deactivate("missing.esp").is_err());
    assert!(load_order.index_of("missing.esp").is_none());
}

#[test]
fn deactivate_should_error_if_given_an_implicitly_active_plugin() {
    let mut load_order = prepare(GameId::Skyrim);

    assert!(load_order.activate("Skyrim.esm").is_ok());
    assert!(load_order.deactivate("Skyrim.esm").is_err());
    assert!(load_order.is_active("Skyrim.esm"));
}

#[test]
fn deactivate_should_error_if_given_a_missing_implicitly_active_plugin() {
    let mut load_order = prepare(GameId::Skyrim);

    assert!(load_order.deactivate("Update.esm").is_err());
    assert!(load_order.index_of("Update.esm").is_none());
}

#[test]
fn deactivate_should_do_nothing_if_the_plugin_is_inactive() {
    let mut load_order = prepare(GameId::Skyrim);

    assert!(!load_order.is_active("Blank - Different.esp"));
    assert!(load_order.deactivate("Blank - Different.esp").is_ok());
    assert!(!load_order.is_active("Blank - Different.esp"));
}

#[test]
fn set_active_plugins_should_error_if_given_more_plugins_than_the_max_limit() {
    let mut load_order = prepare(GameId::Oblivion);

    let active_plugins = [""; 256];
    assert!(load_order.set_active_plugins(&active_plugins).is_err());
    assert_eq!(1, load_order.active_plugin_names().len());
}

#[test]
fn set_active_plugins_should_error_if_passed_an_invalid_plugin_name() {
    let mut load_order = prepare(GameId::Oblivion);

    let active_plugins = ["missing.esp"];
    assert!(load_order.set_active_plugins(&active_plugins).is_err());
    assert_eq!(1, load_order.active_plugin_names().len());
}

#[test]
fn set_active_plugins_should_error_if_the_given_plugins_are_missing_implicitly_active_plugins() {
    let mut load_order = prepare(GameId::Skyrim);

    let active_plugins = ["Blank.esp"];
    assert!(load_order.set_active_plugins(&active_plugins).is_err());
    assert_eq!(1, load_order.active_plugin_names().len());
}

#[test]
fn set_active_plugins_should_error_if_a_missing_implicitly_active_plugin_is_given() {
    let mut load_order = prepare(GameId::Skyrim);

    let active_plugins = ["Skyrim.esm", "Update.esm"];
    assert!(load_order.set_active_plugins(&active_plugins).is_err());
    assert_eq!(1, load_order.active_plugin_names().len());
}

#[test]
fn set_active_plugins_should_deactivate_all_plugins_not_given() {
    let mut load_order = prepare(GameId::Oblivion);

    let active_plugins = ["Blank - Different.esp"];
    assert!(load_order.is_active("Blank.esp"));
    assert!(load_order.set_active_plugins(&active_plugins).is_ok());
    assert!(!load_order.is_active("Blank.esp"));
}

#[test]
fn set_active_plugins_should_activate_all_given_plugins() {
    let mut load_order = prepare(GameId::Oblivion);

    let active_plugins = ["Blank - Different.esp"];
    assert!(!load_order.is_active("Blank - Different.esp"));
    assert!(load_order.set_active_plugins(&active_plugins).is_ok());
    assert!(load_order.is_active("Blank - Different.esp"));
}

#[test]
fn set_active_plugins_should_add_given_plugins_not_in_the_load_order_in_the_given_order() {
    let mut load_order = prepare(GameId::Oblivion);

    let active_plugins = ["Blank - Master Dependent.esp", "Bl\u{e0}\u{f1}k.esp"];
    assert!(load_order.set_active_plugins(&active_plugins).is_ok());
    assert!(load_order.is_active("Blank - Master Dependent.esp"));
    assert_eq!(
        3,
        load_order.index_of("Blank - Master Dependent.esp").unwrap()
    );
    assert!(load_order.is_active("Bl\u{e0}\u{f1}k.esp"));
    assert_eq!(4, load_order.index_of("Bl\u{e0}\u{f1}k.esp").unwrap());
}

#[test]
fn activate_at_the_limit_reports_too_many_active_plugins() {
    let mut load_order = prepare(GameId::Oblivion);

    for i in 0..254 {
        let plugin = format!("Blank{}.esp", i);
        copy_blank_esp(&mut load_order, &plugin);
        load_order.activate(&plugin).unwrap();
    }

    assert_eq!(
        Err(Error::TooManyActivePlugins),
        load_order.activate("Blank - Different.esp")
    );
    assert_eq!(255, load_order.count_active_normal_plugins());
}

#[test]
fn set_active_plugins_requires_implicitly_active_plugins_whose_files_exist() {
    let mut load_order = prepare(GameId::Skyrim);
    load_order
        .plugin_files
        .push(plugin(GameId::Skyrim, "Update.esm", true, 180));

    assert_eq!(
        Err(Error::ImplicitlyActivePlugin("Update.esm".to_string())),
        load_order.set_active_plugins(&["Skyrim.esm"])
    );
    assert_eq!(vec!["Blank.esp"], load_order.active_plugin_names());
}

#[test]
fn set_active_plugins_skips_implicitly_active_plugins_that_are_missing() {
    let mut load_order = prepare(GameId::Skyrim);

    assert_eq!(Ok(()), load_order.set_active_plugins(&["Skyrim.esm"]));
    assert_eq!(vec!["Skyrim.esm"], load_order.active_plugin_names());
}

#[test]
fn deactivate_reports_each_error_kind() {
    let mut load_order = prepare(GameId::Skyrim);

    assert_eq!(
        Err(Error::ImplicitlyActivePlugin("update.esm".to_string())),
        load_order.deactivate("update.esm")
    );
    assert_eq!(
        Err(Error::PluginNotFound("missing.esp".to_string())),
        load_order.deactivate("missing.esp")
    );
}

#[test]
fn activate_reports_an_invalid_plugin_by_its_given_name() {
    let mut load_order = prepare(GameId::Oblivion);

    assert_eq!(
        Err(Error::InvalidPlugin("missing.esp".to_string())),
        load_order.activate("missing.esp")
    );
}
