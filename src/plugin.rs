use vstd::prelude::*;

use crate::enums::{spec_supports_light_masters, GameId};
use crate::names::{lower_of, names_match, same_name, to_lower};

verus! {

/// What the library knows of one plugin entry.
pub struct PluginView {
    pub name: Seq<char>,
    /// Loads among the masters (the master flag, or a light master).
    pub master: bool,
    /// Counts against the light-master cap instead of the normal one.
    pub light: bool,
    pub active: bool,
    pub mtime: i64,
    pub size: u64,
}

/// One plugin file: its name as on disk, the facts that its header gave,
/// whether it is active, and the modification time and size it was read at.
#[derive(Clone, Debug)]
pub struct Plugin {
    pub name: String,
    pub game: GameId,
    pub master_flag: bool,
    pub light_flag: bool,
    pub esl_extension: bool,
    pub active: bool,
    /// Seconds since the UNIX epoch.
    pub modification_time: i64,
    pub size: u64,
}

/// The name, in lower case, ends in `.esl`.
pub open spec fn ends_with_esl(lower: Seq<char>) -> bool {
    lower.len() >= 4 && lower.subrange(lower.len() - 4, lower.len() as int) == seq!['.', 'e', 's', 'l']
}

/// Whether the file name has the light-master extension `.esl`, in any
/// case.
pub fn has_esl_extension(name: &str) -> (r: bool)
    ensures
        r == ends_with_esl(lower_of(name@)),
{
    let lower = to_lower(name);
    let s = lower.as_str();
    let n = s.unicode_len();
    if n < 4 {
        return false;
    }
    let r = s.get_char(n - 4) == '.' && s.get_char(n - 3) == 'e' && s.get_char(n - 2) == 's' && s.get_char(n - 1) == 'l';
    proof {
        let t = s@.subrange(n - 4, n as int);
        if r {
            assert(t =~= seq!['.', 'e', 's', 'l']);
        } else if t == seq!['.', 'e', 's', 'l'] {
            assert(t[0] == s@[n - 4]);
            assert(t[1] == s@[n - 3]);
            assert(t[2] == s@[n - 2]);
            assert(t[3] == s@[n - 1]);
        }
    }
    r
}

pub open spec fn spec_is_light(p: &Plugin) -> bool {
    spec_supports_light_masters(p.game) && (p.light_flag || p.esl_extension)
}

pub open spec fn spec_is_master(p: &Plugin) -> bool {
    p.master_flag || spec_is_light(p)
}

impl View for Plugin {
    type V = PluginView;

    open spec fn view(&self) -> PluginView {
        PluginView {
            name: self.name@,
            master: spec_is_master(self),
            light: spec_is_light(self),
            active: self.active,
            mtime: self.modification_time,
            size: self.size,
        }
    }
}

impl Plugin {
    /// An inactive entry built from the facts that a plugin's header gives.
    pub fn new(
        name: &str,
        game: GameId,
        master_flag: bool,
        light_flag: bool,
        esl_extension: bool,
        modification_time: i64,
        size: u64,
    ) -> (r: Plugin)
        ensures
            r.name@ == name@,
            r.game == game,
            r.master_flag == master_flag,
            r.light_flag == light_flag,
            r.esl_extension == esl_extension,
            !r.active,
            r.modification_time == modification_time,
            r.size == size,
    {
        Plugin {
            name: name.to_owned(),
            game,
            master_flag,
            light_flag,
            esl_extension,
            active: false,
            modification_time,
            size,
        }
    }

    /// A copy of this entry with the given active state.
    pub fn with_active(&self, active: bool) -> (r: Plugin)
        ensures
            r@ == (PluginView { active, ..self@ }),
            r.game == self.game,
    {
        Plugin {
            name: self.name.clone(),
            game: self.game,
            master_flag: self.master_flag,
            light_flag: self.light_flag,
            esl_extension: self.esl_extension,
            active,
            modification_time: self.modification_time,
            size: self.size,
        }
    }

    pub fn name(&self) -> (r: &str)
        ensures
            r@ == self@.name,
    {
        self.name.as_str()
    }

    pub fn is_active(&self) -> (r: bool)
        ensures
            r == self@.active,
    {
        self.active
    }

    pub fn is_light_master_file(&self) -> (r: bool)
        ensures
            r == self@.light,
    {
        self.game.supports_light_masters() && (self.light_flag || self.esl_extension)
    }

    pub fn is_master_file(&self) -> (r: bool)
        ensures
            r == self@.master,
    {
        self.master_flag || self.is_light_master_file()
    }

    pub fn modification_time(&self) -> (r: i64)
        ensures
            r == self@.mtime,
    {
        self.modification_time
    }

    pub fn name_matches(&self, name: &str) -> (r: bool)
        ensures
            r == same_name(self@.name, name@),
    {
        names_match(self.name.as_str(), name)
    }

    pub fn activate(&mut self)
        ensures
            final(self)@ == (PluginView { active: true, ..old(self)@ }),
            final(self).game == old(self).game,
    {
        self.active = true;
    }

    pub fn deactivate(&mut self)
        ensures
            final(self)@ == (PluginView { active: false, ..old(self)@ }),
            final(self).game == old(self).game,
    {
        self.active = false;
    }

    pub fn set_modification_time(&mut self, time: i64)
        ensures
            final(self)@ == (PluginView { mtime: time, ..old(self)@ }),
            final(self).game == old(self).game,
    {
        self.modification_time = time;
    }
}

} // verus!
