use libloadorder::enums::{Error, GameId};
use libloadorder::plugin::Plugin;
use libloadorder::settings::GameSettings;
use libloadorder::timestamp_based::TimestampBasedLoadOrder;

fn master_file(game_id: GameId) -> &'static str {
    match game_id {
        GameId::Morrowind => "Morrowind.esm",
        GameId::Skyrim => "Skyrim.esm",
        _ => "Oblivion.esm",
    }
}

fn plugin(game_id: GameId, name: &str, master: bool, time: i64) -> Plugin {
    Plugin::new(name, game_id, master, false, false, time, 100)
}

/// The plugin files that the test game's plugins directory holds.
fn plugin_files(game_id: GameId) -> Vec<Plugin> {
    vec![
        plugin(game_id, "Blank.esm", true, 0),
        plugin(game_id, master_file(game_id), true, 60),
        plugin(game_id, "Blank - Master Dependent.esp", false, 60),
        plugin(game_id, "Blank - Different.esp", false, 60),
        plugin(game_id, "Blank.esp", false, 120),
        plugin(game_id, "Bl\u{e0}\u{f1}k.esp", false, 120),
    ]
}

/// The active-plugins file that the test game starts with.
fn active_plugins_file(game_id: GameId) -> Vec<u8> {
    if game_id == GameId::Morrowind {
        b"isrealmorrowindini=false\n[Game Files]\nGameFile0=Blank.esm\nGameFile1=Bl\xe0\xf1k.esp\n".to_vec()
    } else {
        b"Blank.esm\nBl\xe0\xf1k.esp\n".to_vec()
    }
}

fn prepare(game_id: GameId) -> TimestampBasedLoadOrder {
    let settings = GameSettings {
        id: game_id,
        master_file: master_file(game_id).to_string(),
        implicitly_active_plugins: Vec::new(),
        plugins_directory: "Data Files".to_string(),
        active_plugins_file: "plugins.txt".to_string(),
    };
    let mut load_order = TimestampBasedLoadOrder::new(settings);
    load_order.plugin_files = plugin_files(game_id);
    let mut blank = load_order.plugin_file("Blank.esp").unwrap();
    blank.activate();
    load_order.plugins = vec![
        load_order.plugin_file(master_file(game_id)).unwrap(),
        blank,
        load_order.plugin_file("Blank - Different.esp").unwrap(),
    ];
    load_order
}

fn load(load_order: &mut TimestampBasedLoadOrder) -> Result<(), Error> {
    let files = load_order.plugin_files.clone();
    let content = active_plugins_file(load_order.game_settings.id);
    load_order.load(files, Some(&content))
}

#[test]
fn insert_position_should_return_none_if_given_a_non_master_plugin() {
    let load_order = prepare(GameId::Oblivion);

    let plugin = load_order.plugin_file("Blank - Master Dependent.esp").unwrap();
    let position = load_order.insert_position(&plugin);

    assert_eq!(None, position);
}

#[test]
fn insert_position_should_return_the_first_non_master_plugin_index_if_given_a_master_plugin() {
    let load_order = prepare(GameId::Oblivion);

    let plugin = load_order.plugin_file("Blank.esm").unwrap();
    let position = load_order.insert_position(&plugin);

    assert_eq!(1, position.unwrap());
}

#[test]
fn insert_position_should_return_none_if_no_non_masters_are_present() {
    let mut load_order = prepare(GameId::Oblivion);

    load_order.plugins.retain(|p| p.is_master_file());

    let plugin = load_order.plugin_file("Blank.esm").unwrap();
    let position = load_order.insert_position(&plugin);

    assert_eq!(None, position);
}

#[test]
fn load_should_reload_existing_plugins() {
    let mut load_order = prepare(GameId::Oblivion);

    assert!(!load_order.plugins()[1].is_master_file());
    let index = load_order
        .plugin_files
        .iter()
        .position(|p| p.name == "Blank.esp")
        .unwrap();
    load_order.plugin_files[index] = plugin(GameId::Oblivion, "Blank.esp", true, 0);

    load(&mut load_order).unwrap();

    assert!(load_order.plugins()[1].is_master_file());
}

#[test]
fn load_should_remove_plugins_that_fail_to_load() {
    let mut load_order = prepare(GameId::Oblivion);

    assert!(load_order.index_of("Blank.esp").is_some());
    assert!(load_order.index_of("Blank - Different.esp").is_some());

    load_order
        .plugin_files
        .retain(|p| p.name != "Blank.esp" && p.name != "Blank - Different.esp");

    load(&mut load_order).unwrap();
    assert!(load_order.index_of("Blank.esp").is_none());
    assert!(load_order.index_of("Blank - Different.esp").is_none());
}

#[test]
fn load_should_add_missing_plugins() {
    let mut load_order = prepare(GameId::Oblivion);

    assert_eq!(3, load_order.plugins().len());
    load(&mut load_order).unwrap();

    let expected_filenames = vec![
        "Blank.esm",
        "Oblivion.esm",
        "Blank - Master Dependent.esp",
        "Blank - Different.esp",
        "Blank.esp",
        "Bl\u{e0}\u{f1}k.esp",
    ];

    assert_eq!(expected_filenames, load_order.plugin_names());
}

#[test]
fn load_should_sort_plugins_into_their_timestamp_order_with_master_files_first() {
    let mut load_order = prepare(GameId::Oblivion);

    load(&mut load_order).unwrap();

    let expected_filenames = vec![
        "Blank.esm".to_string(),
        load_order.game_settings().master_file().to_string(),
        "Blank - Master Dependent.esp".to_string(),
        "Blank - Different.esp".to_string(),
        "Blank.esp".to_string(),
        "Bl\u{e0}\u{f1}k.esp".to_string(),
    ];

    assert_eq!(expected_filenames, load_order.plugin_names());
}

#[test]
fn load_should_empty_the_load_order_if_the_plugins_directory_does_not_exist() {
    let mut load_order = prepare(GameId::Oblivion);

    load_order.load(Vec::new(), None).unwrap();

    assert!(load_order.plugins().is_empty());
}

#[test]
fn load_should_load_plugin_states_from_active_plugins_file_for_oblivion() {
    let mut load_order = prepare(GameId::Oblivion);

    load(&mut load_order).unwrap();
    let expected_filenames = vec!["Blank.esm", "Bl\u{e0}\u{f1}k.esp"];

    assert_eq!(expected_filenames, load_order.active_plugin_names());
}

#[test]
fn load_should_succeed_when_active_plugins_file_is_missing() {
    let mut load_order = prepare(GameId::Oblivion);

    let files = load_order.plugin_files.clone();
    assert!(load_order.load(files, None).is_ok());
    assert!(load_order.active_plugin_names().is_empty());
}

#[test]
fn load_should_load_plugin_states_from_active_plugins_file_for_morrowind() {
    let mut load_order = prepare(GameId::Morrowind);

    load(&mut load_order).unwrap();
    let expected_filenames = vec!["Blank.esm", "Bl\u{e0}\u{f1}k.esp"];

    assert_eq!(expected_filenames, load_order.active_plugin_names());
}

#[test]
fn load_should_deactivate_excess_plugins() {
    let mut load_order = prepare(GameId::Oblivion);

    let mut plugins: Vec<String> = Vec::new();
    plugins.push(load_order.game_settings().master_file().to_string());
    for i in 0..260 {
        plugins.push(format!("Blank{}.esm", i));
    }

    let mut files = plugin_files(GameId::Oblivion);
    for (index, name) in plugins.iter().enumerate() {
        match files.iter().position(|p| &p.name == name) {
            Some(x) => files[x].modification_time = index as i64,
            None => files.push(plugin(GameId::Oblivion, name, true, index as i64)),
        }
    }
    let mut content: Vec<u8> = Vec::new();
    for name in &plugins {
        content.extend_from_slice(name.as_bytes());
        content.push(b'\n');
    }

    plugins = plugins[0..255].to_vec();

    load_order.load(files, Some(&content)).unwrap();
    let active_plugin_names = load_order.active_plugin_names();

    assert_eq!(255, active_plugin_names.len());
    for i in 0..255 {
        assert_eq!(plugins[i], active_plugin_names[i]);
    }
    assert_eq!(plugins, active_plugin_names);
}

#[test]
fn save_should_preserve_and_extend_the_existing_set_of_timestamps() {
    let mut load_order = prepare(GameId::Oblivion);

    let mut old_timestamps: Vec<i64> =
        load_order.plugins().iter().map(|p| p.modification_time()).collect();

    load_order.save(None).unwrap();

    let timestamps: Vec<i64> = load_order.plugins().iter().map(|p| p.modification_time()).collect();

    assert_ne!(old_timestamps, timestamps);

    old_timestamps.sort();
    old_timestamps.dedup_by_key(|t| *t);
    let last_timestamp = *old_timestamps.last().unwrap();
    old_timestamps.push(last_timestamp + 60);

    assert_eq!(old_timestamps, timestamps);
}

#[test]
fn save_should_write_active_plugins_file_for_oblivion() {
    let mut load_order = prepare(GameId::Oblivion);

    let content = load_order.save(None).unwrap();

    let files = load_order.plugin_files.clone();
    load_order.load(files, Some(&content)).unwrap();
    assert_eq!(vec!["Blank.esp"], load_order.active_plugin_names());
}

#[test]
fn save_should_write_active_plugins_file_for_morrowind() {
    let mut load_order = prepare(GameId::Morrowind);

    let existing = active_plugins_file(GameId::Morrowind);
    let content = load_order.save(Some(&existing)).unwrap();

    let files = load_order.plugin_files.clone();
    load_order.load(files, Some(&content)).unwrap();
    assert_eq!(vec!["Blank.esp"], load_order.active_plugin_names());

    let content = String::from_utf8(content).unwrap();
    assert!(content.contains("isrealmorrowindini=false\n[Game Files]\n"));
}

#[test]
fn set_load_order_should_error_if_given_duplicate_plugins() {
    let mut load_order = prepare(GameId::Morrowind);

    let existing_filenames = load_order.plugin_names();
    let filenames = vec!["Blank.esp", "blank.esp"];
    assert!(load_order.set_load_order(&filenames).is_err());
    assert_eq!(existing_filenames, load_order.plugin_names());
}

#[test]
fn set_load_order_should_error_if_given_an_invalid_plugin() {
    let mut load_order = prepare(GameId::Morrowind);

    let existing_filenames = load_order.plugin_names();
    let filenames = vec!["Blank.esp", "missing.esp"];
    assert!(load_order.set_load_order(&filenames).is_err());
    assert_eq!(existing_filenames, load_order.plugin_names());
}

#[test]
fn set_load_order_should_error_if_given_a_list_with_plugins_before_masters() {
    let mut load_order = prepare(GameId::Morrowind);

    let existing_filenames = load_order.plugin_names();
    let filenames = vec!["Blank.esp", "Blank.esm"];
    assert!(load_order.set_load_order(&filenames).is_err());
    assert_eq!(existing_filenames, load_order.plugin_names());
}

#[test]
fn set_load_order_should_not_lose_active_state_of_existing_plugins() {
    let mut load_order = prepare(GameId::Morrowind);

    let filenames = vec![
        "Blank.esm",
        "Blank.esp",
        "Blank - Master Dependent.esp",
        "Blank - Different.esp",
    ];
    load_order.set_load_order(&filenames).unwrap();

    let expected_filenames = vec![
        "Blank.esm",
        "Morrowind.esm",
        "Blank.esp",
        "Blank - Master Dependent.esp",
        "Blank - Different.esp",
        "Bl\u{e0}\u{f1}k.esp",
    ];
    assert_eq!(expected_filenames, load_order.plugin_names());
    assert!(load_order.is_active("Blank.esp"));
}

#[test]
fn set_plugin_index_should_error_if_inserting_a_non_master_before_a_master() {
    let mut load_order = prepare(GameId::Morrowind);

    let existing_filenames = load_order.plugin_names();
    assert!(load_order
        .set_plugin_index("Blank - Master Dependent.esp", 0)
        .is_err());
    assert_eq!(existing_filenames, load_order.plugin_names());
}

#[test]
fn set_plugin_index_should_error_if_moving_a_non_master_before_a_master() {
    let mut load_order = prepare(GameId::Morrowind);

    let existing_filenames = load_order.plugin_names();
    assert!(load_order.set_plugin_index("Blank.esp", 0).is_err());
    assert_eq!(existing_filenames, load_order.plugin_names());
}

#[test]
fn set_plugin_index_should_error_if_inserting_a_master_after_a_non_master() {
    let mut load_order = prepare(GameId::Morrowind);

    let existing_filenames = load_order.plugin_names();
    assert!(load_order.set_plugin_index("Blank.esm", 2).is_err());
    assert_eq!(existing_filenames, load_order.plugin_names());
}

#[test]
fn set_plugin_index_should_error_if_moving_a_master_after_a_non_master() {
    let mut load_order = prepare(GameId::Morrowind);

    let existing_filenames = load_order.plugin_names();
    assert!(load_order.set_plugin_index("Morrowind.esm", 2).is_err());
    assert_eq!(existing_filenames, load_order.plugin_names());
}

#[test]
fn set_plugin_index_should_error_if_setting_the_index_of_an_invalid_plugin() {
    let mut load_order = prepare(GameId::Morrowind);

    let existing_filenames = load_order.plugin_names();
    assert!(load_order.set_plugin_index("missing.esm", 0).is_err());
    assert_eq!(existing_filenames, load_order.plugin_names());
}

#[test]
fn set_plugin_index_should_insert_a_new_plugin() {
    let mut load_order = prepare(GameId::Morrowind);

    let num_plugins = load_order.plugins().len();
    load_order.set_plugin_index("Blank.esm", 1).unwrap();
    assert_eq!(1, load_order.index_of("Blank.esm").unwrap());
    assert_eq!(num_plugins + 1, load_order.plugins().len());
}

#[test]
fn set_plugin_index_should_move_an_existing_plugin() {
    let mut load_order = prepare(GameId::Morrowind);

    let num_plugins = load_order.plugins().len();
    load_order
        .set_plugin_index("Blank - Different.esp", 1)
        .unwrap();
    assert_eq!(1, load_order.index_of("Blank - Different.esp").unwrap());
    assert_eq!(num_plugins, load_order.plugins().len());
}

#[test]
fn set_plugin_index_should_move_an_existing_plugin_later_correctly() {
    let mut load_order = prepare(GameId::Morrowind);

    load_order
        .add_to_load_order("Blank - Master Dependent.esp")
        .unwrap();
    let num_plugins = load_order.plugins().len();
    load_order.set_plugin_index("Blank.esp", 2).unwrap();
    assert_eq!(2, load_order.index_of("Blank.esp").unwrap());
    assert_eq!(num_plugins, load_order.plugins().len());
}

#[test]
fn set_plugin_index_should_preserve_an_existing_plugins_active_state() {
    let mut load_order = prepare(GameId::Morrowind);

    load_order
        .add_to_load_order("Blank - Master Dependent.esp")
        .unwrap();
    load_order.set_plugin_index("Blank.esp", 2).unwrap();
    assert!(load_order.is_active("Blank.esp"));

    load_order
        .set_plugin_index("Blank - Different.esp", 2)
        .unwrap();
    assert!(!load_order.is_active("Blank - Different.esp"));
}

#[test]
fn is_self_consistent_should_return_true() {
    let load_order = prepare(GameId::Morrowind);

    assert!(load_order.is_self_consistent().unwrap());
}
