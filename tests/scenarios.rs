use libloadorder::enums::{Error, GameId};
use libloadorder::names::{names_match, to_owned};
use libloadorder::plugin::Plugin;
use libloadorder::plugins_file::{
    active_plugins_file_content, extract_plugin_name_from_line, file_prelude, push_decimal,
    read_asterisk_entries, read_plugin_names, split_lines, write_asterisk_entries,
};
use libloadorder::settings::GameSettings;
use libloadorder::timestamp_based::{save_schedule, TimestampBasedLoadOrder};

fn plugin(game_id: GameId, name: &str, master: bool, time: i64) -> Plugin {
    Plugin::new(name, game_id, master, false, false, time, 100)
}

fn settings(game_id: GameId, master_file: &str, implicits: Vec<&str>) -> GameSettings {
    GameSettings {
        id: game_id,
        master_file: master_file.to_string(),
        implicitly_active_plugins: to_owned(implicits),
        plugins_directory: "Data".to_string(),
        active_plugins_file: "plugins.txt".to_string(),
    }
}

fn oblivion() -> TimestampBasedLoadOrder {
    let game_id = GameId::Oblivion;
    let mut load_order = TimestampBasedLoadOrder::new(settings(game_id, "Oblivion.esm", vec![]));
    load_order.plugin_files = vec![
        plugin(game_id, "Blank.esm", true, 0),
        plugin(game_id, "Oblivion.esm", true, 60),
        plugin(game_id, "Blank - Master Dependent.esp", false, 60),
        plugin(game_id, "Blank - Different.esp", false, 60),
        plugin(game_id, "Blank.esp", false, 120),
        plugin(game_id, "Bl\u{e0}\u{f1}k.esp", false, 120),
    ];
    load_order.set_load_order(&["Oblivion.esm", "Blank.esp", "Blank - Different.esp"]).unwrap();
    load_order
}

#[test]
fn a_master_goes_before_the_first_non_master() {
    let mut load_order = oblivion();
    load_order.plugins.retain(|p| p.name != "Blank.esm" && p.name != "Blank - Master Dependent.esp" && p.name != "Bl\u{e0}\u{f1}k.esp");
    assert_eq!(vec!["Oblivion.esm", "Blank.esp", "Blank - Different.esp"], load_order.plugin_names());

    let master = load_order.plugin_file("Oblivion.esm").unwrap();
    assert_eq!(Some(1), load_order.insert_position(&master));

    assert_eq!(Ok(()), load_order.activate("Blank.esm"));
    assert_eq!(Some(1), load_order.index_of("Blank.esm"));
}

#[test]
fn a_non_master_is_appended_when_activated() {
    let mut load_order = oblivion();
    load_order.plugins.retain(|p| p.name != "Blank.esm" && p.name != "Blank - Master Dependent.esp" && p.name != "Bl\u{e0}\u{f1}k.esp");

    assert_eq!(Ok(()), load_order.activate("Blank - Master Dependent.esp"));
    assert_eq!(Some(3), load_order.index_of("Blank - Master Dependent.esp"));
    assert!(load_order.is_active("Blank - Master Dependent.esp"));
}

#[test]
fn index_of_ignores_case_including_non_ascii_letters() {
    let load_order = oblivion();
    assert_eq!(load_order.index_of("Bl\u{e0}\u{f1}k.esp"), load_order.index_of("BL\u{c0}\u{d1}K.ESP"));
    assert!(load_order.index_of("bl\u{e0}\u{f1}k.esp").is_some());
    assert!(names_match("bl\u{e0}\u{f1}k.esp", "BL\u{c0}\u{d1}K.ESP"));
    assert!(names_match("BLANK.ESP", "blank.esp"));
    assert!(!names_match("Blank.esp", "Blank.esm"));
}

#[test]
fn save_extends_the_set_of_timestamps_by_minutes() {
    let game_id = GameId::Oblivion;
    let mut load_order = TimestampBasedLoadOrder::new(settings(game_id, "Oblivion.esm", vec![]));
    load_order.plugins = vec![
        plugin(game_id, "Oblivion.esm", true, 0),
        plugin(game_id, "A.esp", false, 60),
        plugin(game_id, "B.esp", false, 120),
        plugin(game_id, "C.esp", false, 60),
        plugin(game_id, "D.esp", false, 0),
    ];
    load_order.save(None).unwrap();
    let times: Vec<i64> = load_order.plugins.iter().map(|p| p.modification_time()).collect();
    assert_eq!(vec![0, 60, 120, 180, 240], times);
}

#[test]
fn save_schedule_keeps_distinct_times_in_ascending_order() {
    let game_id = GameId::Oblivion;
    let plugins = vec![
        plugin(game_id, "A.esm", true, 120),
        plugin(game_id, "B.esp", false, 0),
        plugin(game_id, "C.esp", false, 60),
    ];
    assert_eq!(Ok(vec![0, 60, 120]), save_schedule(&plugins));
    assert_eq!(Ok(vec![]), save_schedule(&Vec::new()));
}

#[test]
fn morrowind_load_reads_the_game_files_section() {
    let game_id = GameId::Morrowind;
    let mut load_order = TimestampBasedLoadOrder::new(settings(game_id, "Morrowind.esm", vec![]));
    let files = vec![
        plugin(game_id, "Blank.esm", true, 0),
        plugin(game_id, "Morrowind.esm", true, 60),
        plugin(game_id, "Bl\u{e0}\u{f1}k.esp", false, 120),
    ];
    let content = b"isrealmorrowindini=false\n[Game Files]\nGameFile0=Blank.esm\nGameFile1=Bl\xe0\xf1k.esp\n";
    load_order.load(files, Some(content)).unwrap();
    assert_eq!(vec!["Blank.esm", "Bl\u{e0}\u{f1}k.esp"], load_order.active_plugin_names());
}

#[test]
fn set_load_order_rejects_a_non_master_before_a_master() {
    let mut load_order = oblivion();
    let before = load_order.plugin_names();
    assert_eq!(Err(Error::NonMasterBeforeMaster), load_order.set_load_order(&["Blank.esp", "Blank.esm"]));
    assert_eq!(before, load_order.plugin_names());
}

#[test]
fn set_load_order_rejects_duplicates() {
    let mut load_order = oblivion();
    let before = load_order.plugin_names();
    assert_eq!(Err(Error::DuplicatePlugin), load_order.set_load_order(&["Blank.esp", "blank.esp"]));
    assert_eq!(before, load_order.plugin_names());
    assert_eq!(
        Err(Error::InvalidPlugin("missing.esp".to_string())),
        load_order.set_load_order(&["Blank.esp", "missing.esp"])
    );
    assert_eq!(before, load_order.plugin_names());
}

#[test]
fn set_plugin_index_then_index_of_gives_the_index() {
    let mut load_order = oblivion();
    let names = load_order.plugin_names();
    for name in &names {
        for position in 0..names.len() {
            let mut copy = oblivion();
            match copy.set_plugin_index(name, position) {
                Ok(()) => assert_eq!(Some(position), copy.index_of(name)),
                Err(e) => {
                    assert_eq!(Error::NonMasterBeforeMaster, e);
                    assert_eq!(names, copy.plugin_names());
                }
            }
        }
    }
    assert_eq!(Ok(()), load_order.set_plugin_index("Blank.esp", 99));
    assert_eq!(Some(names.len() - 1), load_order.index_of("Blank.esp"));
}

#[test]
fn deactivate_excess_plugins_keeps_implicitly_active_plugins() {
    let game_id = GameId::Skyrim;
    let mut load_order = TimestampBasedLoadOrder::new(settings(game_id, "Skyrim.esm", vec!["Skyrim.esm", "Update.esm"]));
    let mut plugins = vec![plugin(game_id, "Skyrim.esm", true, 0), plugin(game_id, "Update.esm", true, 0)];
    for i in 0..300 {
        plugins.push(plugin(game_id, &format!("{}.esp", i), false, 0));
    }
    for p in plugins.iter_mut() {
        p.activate();
    }
    // Put the implicitly active plugins last, where deactivation starts.
    plugins.rotate_left(2);
    load_order.plugins = vec![];
    for p in plugins.into_iter() {
        load_order.plugins.push(p);
    }
    load_order.plugins.sort_by_key(|p| !p.is_master_file());
    load_order.deactivate_excess_plugins();
    assert_eq!(255, load_order.count_active_normal_plugins());
    assert!(load_order.is_active("Skyrim.esm"));
    assert!(load_order.is_active("Update.esm"));
    assert!(load_order.is_active("252.esp"));
    assert!(!load_order.is_active("253.esp"));
}

#[test]
fn loading_twice_gives_the_same_order() {
    let mut load_order = oblivion();
    let files = load_order.plugin_files.clone();
    let content = b"Blank.esm\nBlank.esp\n".to_vec();
    load_order.load(files.clone(), Some(&content)).unwrap();
    let names = load_order.plugin_names();
    let active = load_order.active_plugin_names();
    load_order.load(files.clone(), Some(&content)).unwrap();
    assert_eq!(names, load_order.plugin_names());
    assert_eq!(active, load_order.active_plugin_names());

    let saved = load_order.save(None).unwrap();
    let files: Vec<Plugin> = load_order.plugins.clone();
    let mut reloaded = oblivion();
    reloaded.load(files, Some(&saved)).unwrap();
    assert_eq!(names, reloaded.plugin_names());
    assert_eq!(active, reloaded.active_plugin_names());
}

#[test]
fn split_lines_keeps_an_empty_last_piece() {
    let lines = split_lines(b"a\n\nbc\n");
    assert_eq!(vec![b"a".to_vec(), vec![], b"bc".to_vec(), vec![]], lines);
    assert_eq!(vec![Vec::<u8>::new()], split_lines(b""));
}

#[test]
fn game_file_lines_give_their_plugin_name() {
    assert_eq!(b"Blank.esm".to_vec(), extract_plugin_name_from_line(b"GameFile0=Blank.esm"));
    assert_eq!(b"a.esp.esm".to_vec(), extract_plugin_name_from_line(b"gamefile12=a.esp.esm\r"));
    assert_eq!(b"x.ESP".to_vec(), extract_plugin_name_from_line(b"  GAMEFILE999=x.ESP"));
    assert!(extract_plugin_name_from_line(b"GameFile1000=Blank.esm").is_empty());
    assert!(extract_plugin_name_from_line(b"GameFile=Blank.esm").is_empty());
    assert!(extract_plugin_name_from_line(b"GameFile1=.esm").is_empty());
    assert!(extract_plugin_name_from_line(b"[Game Files]").is_empty());
}

#[test]
fn plugin_names_are_decoded_from_windows_1252() {
    assert_eq!(
        Ok(vec!["Blank.esm".to_string(), "Bl\u{e0}\u{f1}k.esp".to_string()]),
        read_plugin_names(b"Blank.esm\n\nBl\xe0\xf1k.esp\n", false)
    );
    assert_eq!(
        Ok(vec!["Bl\u{e0}\u{f1}k.esp".to_string()]),
        read_plugin_names(b"[Game Files]\nGameFile0=Bl\xe0\xf1k.esp\n", true)
    );
    assert_eq!(Ok(vec!["\u{20ac}.esp".to_string()]), read_plugin_names(b"\x80.esp", false));
}

#[test]
fn active_plugins_files_are_encoded_in_windows_1252() {
    let names = to_owned(vec!["Blank.esm", "Bl\u{e0}\u{f1}k.esp"]);
    assert_eq!(
        Ok(b"Blank.esm\nBl\xe0\xf1k.esp\n".to_vec()),
        active_plugins_file_content(&names, false, &Vec::new())
    );
    let prelude = b"isrealmorrowindini=false\n[Game Files]\n".to_vec();
    assert_eq!(
        Ok(b"isrealmorrowindini=false\n[Game Files]\nGameFile0=Blank.esm\nGameFile1=Bl\xe0\xf1k.esp\n".to_vec()),
        active_plugins_file_content(&names, true, &prelude)
    );
    let bad = to_owned(vec!["\u{4e00}.esp"]);
    assert!(matches!(active_plugins_file_content(&bad, false, &Vec::new()), Err(Error::EncodeError(_))));
}

#[test]
fn the_prelude_ends_after_the_game_files_header() {
    assert_eq!(
        b"isrealmorrowindini=false\n[Game Files]\n".to_vec(),
        file_prelude(b"isrealmorrowindini=false\n[Game Files]\nGameFile0=Blank.esm\n")
    );
    assert_eq!(b"a\nb\n".to_vec(), file_prelude(b"a\nb"));
    assert!(file_prelude(b"").is_empty());
}

#[test]
fn decimal_digits() {
    let mut out = b"x".to_vec();
    push_decimal(&mut out, 0);
    push_decimal(&mut out, 407);
    assert_eq!(b"x0407".to_vec(), out);
}

#[test]
fn reload_drops_missing_files_and_refreshes_changed_ones() {
    let mut load_order = oblivion();
    load_order.activate("Blank.esp").unwrap();
    let index = load_order.plugin_files.iter().position(|p| p.name == "Blank.esp").unwrap();
    load_order.plugin_files[index] = plugin(GameId::Oblivion, "Blank.esp", true, 0);
    load_order.plugin_files.retain(|p| p.name != "Blank - Different.esp");
    load_order.reload_changed_plugins();
    assert_eq!(None, load_order.index_of("Blank - Different.esp"));
    let i = load_order.index_of("Blank.esp").unwrap();
    assert!(load_order.plugins[i].is_master_file());
    assert!(load_order.is_active("Blank.esp"));
    let first_non_master = load_order.plugins.iter().position(|p| !p.is_master_file()).unwrap();
    assert!(load_order.plugins[first_non_master..].iter().all(|p| !p.is_master_file()));
}

#[test]
fn move_or_insert_plugin_if_valid_ignores_invalid_plugins() {
    let mut load_order = oblivion();
    let before = load_order.plugin_names();
    assert_eq!(Ok(None), load_order.move_or_insert_plugin_if_valid("missing.esp"));
    assert_eq!(before, load_order.plugin_names());
    assert_eq!(Ok(Some(before.len() - 1)), load_order.move_or_insert_plugin_if_valid("Blank.esp"));
}

#[test]
fn light_masters_count_against_their_own_cap() {
    let game_id = GameId::SkyrimSE;
    let mut load_order = TimestampBasedLoadOrder::new(settings(game_id, "Skyrim.esm", vec![]));
    load_order.plugin_files = vec![
        Plugin::new("Skyrim.esm", game_id, true, false, false, 0, 1),
        Plugin::new("Light.esl", game_id, false, false, true, 0, 1),
        Plugin::new("Flagged.esp", game_id, false, true, false, 0, 1),
    ];
    assert_eq!(Ok(()), load_order.set_active_plugins(&["Skyrim.esm", "Light.esl", "Flagged.esp"]));
    assert_eq!(1, load_order.count_active_normal_plugins());
    assert_eq!(2, load_order.count_active_light_masters());
    assert!(load_order.plugins.iter().all(|p| p.is_master_file()));
}

fn assert_invariants(load_order: &TimestampBasedLoadOrder) {
    let names = load_order.plugin_names();
    for (i, a) in names.iter().enumerate() {
        for b in names.iter().skip(i + 1) {
            assert!(!names_match(a, b));
        }
    }
    let masters: Vec<bool> = load_order.plugins.iter().map(|p| p.is_master_file()).collect();
    let first_non_master = masters.iter().position(|m| !m).unwrap_or(masters.len());
    assert!(masters[first_non_master..].iter().all(|m| !m));
    assert!(load_order.count_active_normal_plugins() <= 255);
}

#[test]
fn mutators_keep_names_unique_and_masters_first() {
    let mut load_order = oblivion();
    assert_invariants(&load_order);
    let _ = load_order.activate("Blank.esm");
    assert_invariants(&load_order);
    let _ = load_order.set_plugin_index("Bl\u{e0}\u{f1}k.esp", 0);
    assert_invariants(&load_order);
    let _ = load_order.set_plugin_index("BLANK.ESM", 5);
    assert_invariants(&load_order);
    let _ = load_order.set_active_plugins(&["blank.esp", "Blank.esp", "Oblivion.esm"]);
    assert_invariants(&load_order);
    let _ = load_order.move_or_insert_plugin_if_valid("Blank - Master Dependent.esp");
    assert_invariants(&load_order);
    let _ = load_order.set_load_order(&["Blank.esm", "Blank.esp"]);
    assert_invariants(&load_order);
    let _ = load_order.deactivate("Blank.esm");
    assert_invariants(&load_order);
    load_order.reload_changed_plugins();
    assert_invariants(&load_order);
}

#[test]
fn asterisk_files_read_back_what_was_written() {
    let entries = vec![
        (b"Blank.esm".to_vec(), true),
        (b"Blank.esp".to_vec(), false),
        (b"Bl\xe0\xf1k.esp".to_vec(), true),
    ];
    let content = write_asterisk_entries(&entries);
    assert_eq!(b"*Blank.esm\nBlank.esp\n*Bl\xe0\xf1k.esp\n".to_vec(), content);
    assert_eq!(entries, read_asterisk_entries(&content));
    assert_eq!(vec![(b"a.esp".to_vec(), false)], read_asterisk_entries(b"\n\na.esp"));
}

#[test]
fn reload_refreshes_entries_in_place() {
    let mut load_order = oblivion();
    let before = load_order.plugin_names();
    let index = load_order.plugin_files.iter().position(|p| p.name == "Bl\u{e0}\u{f1}k.esp").unwrap();
    load_order.plugin_files[index] = plugin(GameId::Oblivion, "Bl\u{e0}\u{f1}k.esp", true, 5);
    load_order.reload_changed_plugins();
    assert_eq!(before, load_order.plugin_names());
    let i = load_order.index_of("Bl\u{e0}\u{f1}k.esp").unwrap();
    assert!(load_order.plugins[i].is_master_file());
    assert_eq!(5, load_order.plugins[i].modification_time());
}
