use libloadorder::enums::{GameId, LoadOrderMethod};

#[test]
fn game_id_supports_light_masters_should_be_false_until_fallout_4() {
    assert!(!GameId::Morrowind.supports_light_masters());
    assert!(!GameId::Oblivion.supports_light_masters());
    assert!(!GameId::Skyrim.supports_light_masters());
    assert!(GameId::SkyrimSE.supports_light_masters());
    assert!(GameId::SkyrimVR.supports_light_masters());
    assert!(!GameId::Fallout3.supports_light_masters());
    assert!(!GameId::FalloutNV.supports_light_masters());
    assert!(GameId::Fallout4.supports_light_masters());
    assert!(GameId::Fallout4VR.supports_light_masters());
}

#[test]
fn game_id_maps_to_its_load_order_method() {
    assert_eq!(LoadOrderMethod::Timestamp, GameId::Morrowind.load_order_method());
    assert_eq!(LoadOrderMethod::Timestamp, GameId::Oblivion.load_order_method());
    assert_eq!(LoadOrderMethod::Timestamp, GameId::Fallout3.load_order_method());
    assert_eq!(LoadOrderMethod::Timestamp, GameId::FalloutNV.load_order_method());
    assert_eq!(LoadOrderMethod::Textfile, GameId::Skyrim.load_order_method());
    assert_eq!(LoadOrderMethod::Asterisk, GameId::SkyrimSE.load_order_method());
    assert_eq!(LoadOrderMethod::Asterisk, GameId::SkyrimVR.load_order_method());
    assert_eq!(LoadOrderMethod::Asterisk, GameId::Fallout4.load_order_method());
    assert_eq!(LoadOrderMethod::Asterisk, GameId::Fallout4VR.load_order_method());
}
