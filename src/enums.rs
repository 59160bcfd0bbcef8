use vstd::prelude::*;

verus! {

/// How a game persists its load order.
#[derive(Clone, Copy, PartialEq, Eq, Debug, Hash, Structural)]
pub enum LoadOrderMethod {
    Timestamp,
    Textfile,
    Asterisk,
}

/// The games whose load orders the library manages.
#[derive(Clone, Copy, PartialEq, Eq, Debug, Hash, Structural)]
pub enum GameId {
    Morrowind,
    Oblivion,
    Skyrim,
    Fallout3,
    FalloutNV,
    Fallout4,
    SkyrimSE,
    Fallout4VR,
    SkyrimVR,
}

pub open spec fn spec_supports_light_masters(id: GameId) -> bool {
    id == GameId::Fallout4 || id == GameId::Fallout4VR || id == GameId::SkyrimSE
        || id == GameId::SkyrimVR
}

pub open spec fn spec_load_order_method(id: GameId) -> LoadOrderMethod {
    match id {
        GameId::Morrowind | GameId::Oblivion | GameId::Fallout3 | GameId::FalloutNV => {
            LoadOrderMethod::Timestamp
        },
        GameId::Skyrim => LoadOrderMethod::Textfile,
        _ => LoadOrderMethod::Asterisk,
    }
}

impl GameId {
    /// Whether the game knows light masters (`.esl` files and the light flag).
    pub fn supports_light_masters(self) -> (r: bool)
        ensures
            r == spec_supports_light_masters(self),
    {
        match self {
            GameId::Fallout4 | GameId::Fallout4VR | GameId::SkyrimSE | GameId::SkyrimVR => true,
            _ => false,
        }
    }

    /// The way the game stores its load order and active plugins.
    pub fn load_order_method(self) -> (r: LoadOrderMethod)
        ensures
            r == spec_load_order_method(self),
    {
        match self {
            GameId::Morrowind | GameId::Oblivion | GameId::Fallout3 | GameId::FalloutNV => {
                LoadOrderMethod::Timestamp
            },
            GameId::Skyrim => LoadOrderMethod::Textfile,
            _ => LoadOrderMethod::Asterisk,
        }
    }
}

/// The errors that load-order operations report.
///
/// Failures that come from the file system or the text codecs carry their
/// message as text.
#[derive(Clone, Debug, PartialEq, Eq)]
pub enum Error {
    InvalidPath(String),
    IoError(String),
    NoFilename,
    SystemTimeError(String),
    NotUtf8(Vec<u8>),
    DecodeError(String),
    EncodeError(String),
    PluginParsingError,
    PluginNotFound(String),
    TooManyActivePlugins,
    InvalidRegex,
    DuplicatePlugin,
    NonMasterBeforeMaster,
    GameMasterMustLoadFirst,
    InvalidPlugin(String),
    ImplicitlyActivePlugin(String),
    NoLocalAppData,
    /// The first string is the plugin, the second is the master.
    UnrepresentedHoist(String, String),
    InstalledPlugin(String),
}

} // verus!
