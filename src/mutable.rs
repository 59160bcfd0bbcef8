use vstd::prelude::*;

use crate::enums::Error;
use crate::load_order::{
    activates_only, active_names, comes_from, lemma_comes_from_trans, lemma_insert_comes_from,
    lemma_same_names_come_from, lemma_insert_contains, added_at, insert_index,
    lemma_first_non_master_index, activation_step, add_missing_in_turn, entry_names, string_names,
    implicits_in_turn, missing_step, implicit_step, count_active, find_first_non_master_position, grows,
    has_duplicates, has_name, index_allowed, is_active_in, is_first_named,
    is_partitioned_by_master_flag, keeps_order, lemma_activate_grows, lemma_count_active_update,
    lemma_first_named_exists, lemma_grows_trans, lemma_insert_grows, lemma_insert_keeps_order,
    lemma_keeps_order_trans, lemma_same_names_keep_order, name_views, partitioned,
    position_of_name, precedes, resolved, resolved_all, unique_names, validate_index,
    validate_plugin_names, views, within_caps, MAX_ACTIVE_LIGHT_MASTERS, MAX_ACTIVE_NORMAL_PLUGINS,
};
use crate::names::same_name;
use crate::plugin::{Plugin, PluginView};
use crate::settings::is_implicit;
use crate::timestamp_based::TimestampBasedLoadOrder;

verus! {

/// Inserting an entry whose name is new at a position that suits its kind
/// keeps names unique and masters first.
pub proof fn lemma_insert_keeps_wf(s: Seq<PluginView>, i: int, v: PluginView)
    requires
        unique_names(s),
        partitioned(s),
        !has_name(s, v.name),
        0 <= i <= s.len(),
        v.master ==> forall|j: int| 0 <= j < i ==> (#[trigger] s[j]).master,
        !v.master ==> forall|j: int| i <= j < s.len() ==> !(#[trigger] s[j]).master,
    ensures
        unique_names(s.insert(i, v)),
        partitioned(s.insert(i, v)),
{
    let t = s.insert(i, v);
    assert forall|a: int, b: int|
        0 <= a < t.len() && 0 <= b < t.len() && a != b implies !same_name(
        #[trigger] t[a].name,
        #[trigger] t[b].name,
    ) by {
        if a == i {
            assert(!same_name(s[if b < i { b } else { b - 1 }].name, v.name));
        } else if b == i {
            assert(!same_name(s[if a < i { a } else { a - 1 }].name, v.name));
        }
    }
    assert forall|a: int, b: int| 0 <= a < b < t.len() && (#[trigger] t[b]).master implies (#[trigger] t[a]).master by {
        if b == i {
        } else if a == i {
            assert(!s[b - 1].master || v.master);
        } else if a < i && b > i {
            if !v.master {
                assert(!s[b - 1].master);
            } else {
                assert(s[a].master);
            }
        } else if a > i {
            assert(s[a - 1].master);
        } else {
            assert(s[a].master);
        }
    }
}

/// With unique names, an entry named `name` is the first one so named.
pub proof fn lemma_first_named_unique(s: Seq<PluginView>, name: Seq<char>, i: int)
    requires
        unique_names(s),
        0 <= i < s.len(),
        same_name(s[i].name, name),
    ensures
        is_first_named(s, name, i),
{
    assert forall|j: int| 0 <= j < i implies !same_name(#[trigger] s[j].name, name) by {
        assert(!same_name(s[j].name, s[i].name));
    }
}

/// The number of active, implicitly active entries whose light flag is
/// `light`.
pub open spec fn count_active_implicit(s: Seq<PluginView>, imps: Seq<String>, light: bool) -> nat
    decreases s.len(),
{
    if s.len() == 0 {
        0
    } else {
        count_active_implicit(s.drop_last(), imps, light) + if s.last().active && s.last().light == light
            && is_implicit(imps, s.last().name) {
            1nat
        } else {
            0nat
        }
    }
}

/// When every active entry is implicitly active, the counts agree.
pub proof fn lemma_count_all_implicit(s: Seq<PluginView>, imps: Seq<String>, light: bool)
    requires
        forall|c: int| 0 <= c < s.len() && (#[trigger] s[c]).active ==> is_implicit(imps, s[c].name),
    ensures
        count_active(s, light) == count_active_implicit(s, imps, light),
    decreases s.len(),
{
    if s.len() > 0 {
        let t = s.drop_last();
        assert forall|c: int| 0 <= c < t.len() && (#[trigger] t[c]).active implies is_implicit(imps, t[c].name) by {
            assert(t[c] == s[c]);
        }
        lemma_count_all_implicit(t, imps, light);
    }
}

/// Entries that agree on name, kind and being active and implicit have the
/// same count of active implicit entries.
pub proof fn lemma_count_implicit_same(a: Seq<PluginView>, b: Seq<PluginView>, imps: Seq<String>, light: bool)
    requires
        a.len() == b.len(),
        forall|k: int|
            0 <= k < a.len() ==> (#[trigger] b[k]).name == a[k].name && b[k].light == a[k].light && (b[k].active
                && is_implicit(imps, b[k].name)) == (a[k].active && is_implicit(imps, a[k].name)),
    ensures
        count_active_implicit(a, imps, light) == count_active_implicit(b, imps, light),
    decreases a.len(),
{
    if a.len() > 0 {
        let a1 = a.drop_last();
        let b1 = b.drop_last();
        assert forall|k: int| 0 <= k < a1.len() implies (#[trigger] b1[k]).name == a1[k].name && b1[k].light == a1[k].light
            && (b1[k].active && is_implicit(imps, b1[k].name)) == (a1[k].active && is_implicit(imps, a1[k].name)) by {
            assert(b1[k] == b[k] && a1[k] == a[k]);
        }
        lemma_count_implicit_same(a1, b1, imps, light);
        assert(b.last() == b[a.len() - 1]);
    }
}

/// Deactivating the excess reaches both caps when the implicitly active
/// entries alone fit them.
pub proof fn lemma_excess_within_caps(a: Seq<PluginView>, b: Seq<PluginView>, imps: Seq<String>, m: int)
    requires
        excess_cut(a, b, imps, m),
        count_active_implicit(a, imps, false) <= MAX_ACTIVE_NORMAL_PLUGINS,
        count_active_implicit(a, imps, true) <= MAX_ACTIVE_LIGHT_MASTERS,
    ensures
        within_caps(b),
{
    assert forall|k: int|
        0 <= k < a.len() implies (#[trigger] b[k]).name == a[k].name && b[k].light == a[k].light && (b[k].active
            && is_implicit(imps, b[k].name)) == (a[k].active && is_implicit(imps, a[k].name)) by {
        if k < m {
            assert(b[k] == a[k]);
        } else {
            assert(b[k] == (PluginView { active: a[k].active && is_implicit(imps, a[k].name), ..a[k] }));
        }
    }
    lemma_count_implicit_same(a, b, imps, false);
    lemma_count_implicit_same(a, b, imps, true);
    if !within_caps(b) {
        assert(m == 0);
        assert forall|c: int| 0 <= c < b.len() && (#[trigger] b[c]).active implies is_implicit(imps, b[c].name) by {
            assert(b[c] == (PluginView { active: a[c].active && is_implicit(imps, a[c].name), ..a[c] }));
        }
        lemma_count_all_implicit(b, imps, false);
        lemma_count_all_implicit(b, imps, true);
    }
}

/// Fewer active entries, pointwise, give no larger counts.
pub proof fn lemma_count_active_le(x: Seq<PluginView>, y: Seq<PluginView>, light: bool)
    requires
        x.len() == y.len(),
        forall|k: int| 0 <= k < x.len() ==> (#[trigger] x[k]).light == y[k].light && (x[k].active ==> y[k].active),
    ensures
        count_active(x, light) <= count_active(y, light),
    decreases x.len(),
{
    if x.len() > 0 {
        let x1 = x.drop_last();
        let y1 = y.drop_last();
        assert forall|k: int| 0 <= k < x1.len() implies (#[trigger] x1[k]).light == y1[k].light && (x1[k].active ==> y1[k].active) by {
            assert(x1[k] == x[k] && y1[k] == y[k]);
        }
        lemma_count_active_le(x1, y1, light);
        assert(x.last() == x[x.len() - 1]);
    }
}

proof fn lemma_excess_cut_not_earlier(w: Seq<PluginView>, a: Seq<PluginView>, b: Seq<PluginView>, imps: Seq<String>, ma: int, mb: int)
    requires
        excess_cut(w, a, imps, ma),
        excess_cut(w, b, imps, mb),
    ensures
        ma >= mb,
{
    if ma < mb {
        assert(within_caps(b));
        let u = a.update(ma, w[ma]);
        assert forall|k: int| 0 <= k < a.len() implies (#[trigger] u[k]).light == b[k].light && (u[k].active ==> b[k].active) by {
            if k < ma {
                assert(u[k] == w[k] && b[k] == w[k]);
            } else if k == ma {
                assert(u[k] == w[k] && b[k] == w[k]);
            } else if k < mb {
                assert(b[k] == w[k]);
            }
        }
        lemma_count_active_le(u, b, false);
        lemma_count_active_le(u, b, true);
        assert forall|k: int| 0 <= k < a.len() implies (#[trigger] a[k]).light == b[k].light && (a[k].active ==> b[k].active) by {
            if k < ma {
                assert(a[k] == w[k] && b[k] == w[k]);
            } else if k < mb {
                assert(b[k] == w[k]);
            }
        }
        lemma_count_active_le(a, b, false);
        lemma_count_active_le(a, b, true);
    }
}

/// Deactivating the excess of the same entries gives one result.
pub proof fn lemma_excess_cut_unique(w: Seq<PluginView>, a: Seq<PluginView>, b: Seq<PluginView>, imps: Seq<String>, ma: int, mb: int)
    requires
        excess_cut(w, a, imps, ma),
        excess_cut(w, b, imps, mb),
    ensures
        a == b,
{
    lemma_excess_cut_not_earlier(w, a, b, imps, ma, mb);
    lemma_excess_cut_not_earlier(w, b, a, imps, mb, ma);
    assert forall|k: int| 0 <= k < a.len() implies a[k] == b[k] by {
        if k < ma {
            assert(a[k] == w[k] && b[k] == w[k]);
        }
    }
    assert(a =~= b);
}

/// Removing an entry keeps names unique and masters first.
pub proof fn lemma_remove_keeps_wf(s: Seq<PluginView>, i: int)
    requires
        unique_names(s),
        partitioned(s),
        0 <= i < s.len(),
    ensures
        unique_names(s.remove(i)),
        partitioned(s.remove(i)),
        !has_name(s.remove(i), s[i].name),
{
    let t = s.remove(i);
    assert forall|a: int, b: int|
        0 <= a < t.len() && 0 <= b < t.len() && a != b implies !same_name(
        #[trigger] t[a].name,
        #[trigger] t[b].name,
    ) by {
        let a1 = if a < i { a } else { a + 1 };
        let b1 = if b < i { b } else { b + 1 };
        assert(t[a] == s[a1] && t[b] == s[b1]);
    }
    assert forall|a: int, b: int| 0 <= a < b < t.len() && (#[trigger] t[b]).master implies (#[trigger] t[a]).master by {
        let a1 = if a < i { a } else { a + 1 };
        let b1 = if b < i { b } else { b + 1 };
        assert(t[a] == s[a1] && t[b] == s[b1]);
    }
    if has_name(t, s[i].name) {
        let k = choose|k: int| 0 <= k < t.len() && same_name(#[trigger] t[k].name, s[i].name);
        let k1 = if k < i { k } else { k + 1 };
        assert(t[k] == s[k1]);
    }
}

/// The entry as the plugin files show it now: the file's entry with `v`'s
/// active flag if the file's modification time or size changed, `v`
/// otherwise.
pub open spec fn refreshed(v: PluginView, f: Seq<PluginView>) -> PluginView {
    let k = choose|k: int| is_first_named(f, v.name, k);
    if f[k].mtime != v.mtime || f[k].size != v.size {
        PluginView { active: v.active, ..f[k] }
    } else {
        v
    }
}

/// The entries whose file is still there, in their order, each refreshed
/// from its file.
pub open spec fn reloaded(s: Seq<PluginView>, f: Seq<PluginView>) -> Seq<PluginView>
    decreases s.len(),
{
    if s.len() == 0 {
        Seq::empty()
    } else if has_name(f, s.last().name) {
        reloaded(s.drop_last(), f).push(refreshed(s.last(), f))
    } else {
        reloaded(s.drop_last(), f)
    }
}

/// No entry that stays changes its kind when refreshed.
pub open spec fn kinds_kept(s: Seq<PluginView>, f: Seq<PluginView>) -> bool {
    forall|o: int| 0 <= o < s.len() && has_name(f, s[o].name) ==> (#[trigger] refreshed(s[o], f)).master == s[o].master
}

/// A refreshed entry names the same file.
pub proof fn lemma_refreshed_names(s: Seq<PluginView>, f: Seq<PluginView>)
    ensures
        forall|o: int| 0 <= o < s.len() && has_name(f, s[o].name) ==> same_name(#[trigger] refreshed(s[o], f).name, s[o].name),
{
    assert forall|o: int| 0 <= o < s.len() && has_name(f, s[o].name) implies same_name(#[trigger] refreshed(s[o], f).name, s[o].name) by {
        lemma_first_named_exists(f, s[o].name);
        let k = choose|k: int| is_first_named(f, s[o].name, k);
        assert(same_name(f[k].name, s[o].name));
    }
}

/// `b` is `a` with the active non-implicit entries from `m` on deactivated,
/// where `m` is as late as the caps allow.
pub open spec fn excess_cut(a: Seq<PluginView>, b: Seq<PluginView>, imps: Seq<String>, m: int) -> bool {
    0 <= m <= a.len() && b.len() == a.len() && (forall|k: int| 0 <= k < m ==> #[trigger] b[k] == a[k])
        && (forall|k: int|
        m <= k < a.len() ==> #[trigger] b[k] == (PluginView { active: a[k].active && is_implicit(imps, a[k].name), ..a[k] }))
        && (within_caps(b) || m == 0) && (m < a.len() && within_caps(b) ==> !within_caps(b.update(m, a[m])))
}

/// Changing an entry's active flag keeps names unique and masters first.
pub proof fn lemma_update_active_keeps_wf(s: Seq<PluginView>, i: int, active: bool)
    requires
        unique_names(s),
        partitioned(s),
        0 <= i < s.len(),
    ensures
        unique_names(s.update(i, PluginView { active, ..s[i] })),
        partitioned(s.update(i, PluginView { active, ..s[i] })),
{
    let t = s.update(i, PluginView { active, ..s[i] });
    assert forall|a: int, b: int|
        0 <= a < t.len() && 0 <= b < t.len() && a != b implies !same_name(
        #[trigger] t[a].name,
        #[trigger] t[b].name,
    ) by {
        assert(t[a].name == s[a].name && t[b].name == s[b].name);
    }
    assert forall|a: int, b: int| 0 <= a < b < t.len() && (#[trigger] t[b]).master implies (#[trigger] t[a]).master by {
        assert(t[a].master == s[a].master && t[b].master == s[b].master);
    }
}

impl TimestampBasedLoadOrder {
    /// The position of the entry with the given name, compared without
    /// regard to case.
    pub fn index_of(&self, name: &str) -> (r: Option<usize>)
        ensures
            match r {
                Some(i) => is_first_named(self.entries(), name@, i as int),
                None => !has_name(self.entries(), name@),
            },
    {
        let ghost s = self.entries();
        let mut i: usize = 0;
        while i < self.plugins.len()
            invariant
                0 <= i <= s.len(),
                s == self.entries(),
                forall|j: int| 0 <= j < i ==> !same_name(#[trigger] s[j].name, name@),
            decreases s.len() - i,
        {
            if self.plugins[i].name_matches(name) {
                return Some(i);
            }
            i += 1;
        }
        None
    }

    /// Whether an entry of the given name is active.
    pub fn is_active(&self, name: &str) -> (r: bool)
        ensures
            r == is_active_in(self.entries(), name@),
    {
        let ghost s = self.entries();
        let mut i: usize = 0;
        while i < self.plugins.len()
            invariant
                0 <= i <= s.len(),
                s == self.entries(),
                forall|j: int| 0 <= j < i ==> !(same_name(#[trigger] s[j].name, name@) && s[j].active),
            decreases s.len() - i,
        {
            if self.plugins[i].is_active() && self.plugins[i].name_matches(name) {
                assert(s[i as int] == self.plugins@[i as int]@);
                return true;
            }
            i += 1;
        }
        false
    }

    /// The names of the entries, in load order.
    pub fn plugin_names(&self) -> (r: Vec<String>)
        ensures
            r@.len() == self.entries().len(),
            forall|i: int| 0 <= i < r@.len() ==> (#[trigger] r@[i])@ == self.entries()[i].name,
    {
        let mut r: Vec<String> = Vec::new();
        let mut i: usize = 0;
        while i < self.plugins.len()
            invariant
                0 <= i <= self.entries().len(),
                r@.len() == i,
                forall|k: int| 0 <= k < i ==> (#[trigger] r@[k])@ == self.entries()[k].name,
            decreases self.entries().len() - i,
        {
            r.push(self.plugins[i].name.clone());
            i += 1;
        }
        r
    }

    /// The names of the active entries, in load order.
    pub fn active_plugin_names(&self) -> (r: Vec<String>)
        ensures
            r@.map_values(|s: String| s@) == active_names(self.entries()),
    {
        let ghost s = self.entries();
        let mut r: Vec<String> = Vec::new();
        let mut i: usize = 0;
        while i < self.plugins.len()
            invariant
                0 <= i <= s.len(),
                s == self.entries(),
                r@.map_values(|s: String| s@) == active_names(s.subrange(0, i as int)),
            decreases s.len() - i,
        {
            proof {
                assert(s.subrange(0, i + 1).drop_last() =~= s.subrange(0, i as int));
            }
            if self.plugins[i].is_active() {
                r.push(self.plugins[i].name.clone());
            }
            i += 1;
            proof {
                assert(r@.map_values(|s: String| s@) =~= active_names(s.subrange(0, i as int)));
            }
        }
        assert(s.subrange(0, i as int) =~= s);
        r
    }

    /// How many active entries count against the normal cap.
    pub fn count_active_normal_plugins(&self) -> (r: usize)
        ensures
            r == count_active(self.entries(), false),
    {
        self.count_active_of_kind(false)
    }

    /// How many active entries are light masters.
    pub fn count_active_light_masters(&self) -> (r: usize)
        ensures
            r == count_active(self.entries(), true),
    {
        self.count_active_of_kind(true)
    }

    fn count_active_of_kind(&self, light: bool) -> (r: usize)
        ensures
            r == count_active(self.entries(), light),
    {
        let ghost s = self.entries();
        let mut n: usize = 0;
        let mut i: usize = 0;
        while i < self.plugins.len()
            invariant
                0 <= i <= s.len(),
                s == self.entries(),
                n == count_active(s.subrange(0, i as int), light),
                n <= i,
            decreases s.len() - i,
        {
            proof {
                assert(s.subrange(0, i + 1).drop_last() =~= s.subrange(0, i as int));
            }
            if self.plugins[i].is_active() && self.plugins[i].is_light_master_file() == light {
                n += 1;
            }
            i += 1;
        }
        assert(s.subrange(0, i as int) =~= s);
        n
    }

    /// Puts the entry where its kind belongs and returns its position.
    pub fn insert(&mut self, plugin: Plugin) -> (r: usize)
        requires
            old(self).wf(),
            !has_name(old(self).entries(), plugin@.name),
        ensures
            final(self).wf(),
            r <= old(self).entries().len(),
            final(self).entries() == old(self).entries().insert(r as int, plugin@),
            plugin@.master ==> r == old(self).entries().len() || !old(self).entries()[r as int].master,
            plugin@.master ==> forall|j: int| 0 <= j < r ==> (#[trigger] old(self).entries()[j]).master,
            !plugin@.master ==> r == old(self).entries().len(),
            r == insert_index(old(self).entries(), plugin@),
            final(self).game_settings == old(self).game_settings,
            final(self).plugin_files == old(self).plugin_files,
    {
        let ghost s = self.entries();
        let ghost v = plugin@;
        let pos = self.insert_position(&plugin);
        proof {
            if v.master {
                lemma_first_non_master_index(s, pos);
            }
        }
        let r = match pos {
            Some(p) => p,
            None => self.plugins.len(),
        };
        proof {
            lemma_insert_keeps_wf(s, r as int, v);
        }
        self.plugins.insert(r, plugin);
        proof {
            assert(self.entries() =~= s.insert(r as int, v));
        }
        r
    }

    /// A fresh, inactive entry for the plugin file of the given name, if the
    /// plugins directory holds a valid one.
    pub fn plugin_file(&self, name: &str) -> (r: Option<Plugin>)
        ensures
            r is Some <==> has_name(self.files(), name@),
            r matches Some(p) ==> exists|k: int|
                is_first_named(self.files(), name@, k) && p@ == (PluginView {
                    active: false,
                    ..self.files()[k]
                }),
    {
        let ghost f = self.files();
        let mut i: usize = 0;
        while i < self.plugin_files.len()
            invariant
                0 <= i <= f.len(),
                f == self.files(),
                forall|j: int| 0 <= j < i ==> !same_name(#[trigger] f[j].name, name@),
            decreases f.len() - i,
        {
            if self.plugin_files[i].name_matches(name) {
                let p = self.plugin_files[i].with_active(false);
                assert(is_first_named(f, name@, i as int));
                return Some(p);
            }
            i += 1;
        }
        None
    }

    /// Adds the named plugin file and returns its position.
    pub fn add_to_load_order(&mut self, name: &str) -> (r: Result<usize, Error>)
        requires
            old(self).wf(),
            !has_name(old(self).entries(), name@),
        ensures
            final(self).wf(),
            final(self).game_settings == old(self).game_settings,
            final(self).plugin_files == old(self).plugin_files,
            r is Err <==> !has_name(old(self).files(), name@),
            r matches Err(e) ==> (e matches Error::InvalidPlugin(n) && n@ == name@) && final(self).entries()
                == old(self).entries(),
            r matches Ok(i) ==> i <= old(self).entries().len() && exists|k: int|
                is_first_named(old(self).files(), name@, k) && final(self).entries()
                    == old(self).entries().insert(
                    i as int,
                    PluginView { active: false, ..old(self).files()[k] },
                ),
            r matches Ok(i) ==> added_at(old(self).entries(), final(self).entries(), i as int),
            r matches Ok(i) ==> i == insert_index(old(self).entries(), final(self).entries()[i as int]),
    {
        match self.plugin_file(name) {
            Some(p) => Ok(self.insert(p)),
            None => Err(Error::InvalidPlugin(name.to_string())),
        }
    }

    /// Sets the active flag of the entry at `i`.
    pub fn set_active(&mut self, i: usize, active: bool)
        requires
            old(self).wf(),
            i < old(self).entries().len(),
        ensures
            final(self).wf(),
            final(self).game_settings == old(self).game_settings,
            final(self).plugin_files == old(self).plugin_files,
            final(self).entries() == old(self).entries().update(
                i as int,
                PluginView { active, ..old(self).entries()[i as int] },
            ),
    {
        let ghost before = self.entries();
        let ghost pv = self.plugins@;
        if active {
            self.plugins[i].activate();
        } else {
            self.plugins[i].deactivate();
        }
        proof {
            assert forall|k: int| 0 <= k < pv.len() implies #[trigger] self.entries()[k]
                == before.update(i as int, PluginView { active, ..before[i as int] })[k] by {
                assert(self.entries()[k] == self.plugins@[k]@);
                assert(before[k] == pv[k]@);
            }
            assert(self.entries() =~= before.update(i as int, PluginView { active, ..before[i as int] }));
            lemma_update_active_keeps_wf(before, i as int, active);
        }
    }

    /// Makes the named plugin active, adding it first if it is missing and
    /// its file is valid. Does nothing if neither holds.
    pub fn activate_unvalidated(&mut self, name: &str)
        requires
            old(self).wf(),
        ensures
            final(self).wf(),
            final(self).game_settings == old(self).game_settings,
            final(self).plugin_files == old(self).plugin_files,
            grows(old(self).entries(), final(self).entries()),
            has_name(old(self).entries(), name@) || has_name(old(self).files(), name@)
                ==> is_active_in(final(self).entries(), name@),
            activates_only(old(self).entries(), final(self).entries(), name@),
            keeps_order(old(self).entries(), final(self).entries()),
            comes_from(old(self).entries(), final(self).entries(), old(self).files()),
            !has_name(old(self).entries(), name@) && !has_name(old(self).files(), name@) ==> final(self).entries()
                == old(self).entries(),
            forall|i: int|
                is_first_named(old(self).entries(), name@, i) ==> final(self).entries() == old(self).entries().update(
                    i,
                    PluginView { active: true, ..old(self).entries()[i] },
                ),
            !has_name(old(self).entries(), name@) && has_name(old(self).files(), name@) ==> exists|j: int, k: int|
                #[trigger] added_at(old(self).entries(), final(self).entries(), j) && #[trigger] is_first_named(old(self).files(), name@, k)
                    && final(self).entries()[j] == (PluginView { active: true, ..old(self).files()[k] }),
            final(self).entries() == if has_name(old(self).entries(), name@) || has_name(old(self).files(), name@) {
                activation_step(old(self).entries(), old(self).files(), name@)
            } else {
                old(self).entries()
            },
    {
        let ghost s0 = self.entries();
        match self.index_of(name) {
            Some(i) => {
                self.set_active(i, true);
                proof {
                    crate::load_order::lemma_activation_step_present(s0, self.files(), name@, i as int);
                    lemma_activate_grows(s0, i as int);
                    lemma_same_names_keep_order(s0, self.entries());
                    lemma_same_names_come_from(s0, self.entries(), self.files());
                    assert forall|c: int|
                        0 <= c < self.entries().len() && (#[trigger] self.entries()[c]).active implies is_active_in(s0, self.entries()[c].name)
                            || same_name(self.entries()[c].name, name@) by {
                        if c != i {
                            assert(self.entries()[c] == s0[c]);
                        }
                    }
                }
            },
            None => {
                match self.add_to_load_order(name) {
                    Ok(i) => {
                        let ghost s1 = self.entries();
                        proof {
                            let k = choose|k: int|
                                is_first_named(old(self).files(), name@, k) && s1 == s0.insert(
                                    i as int,
                                    PluginView { active: false, ..old(self).files()[k] },
                                );
                            lemma_insert_grows(s0, i as int, s1[i as int]);
                        }
                        self.set_active(i, true);
                        proof {
                            lemma_activate_grows(s1, i as int);
                            lemma_grows_trans(s0, s1, self.entries());
                            lemma_insert_keeps_order(s0, i as int, s1[i as int]);
                            lemma_same_names_keep_order(s1, self.entries());
                            lemma_keeps_order_trans(s0, s1, self.entries());
                            let k = choose|k: int|
                                is_first_named(old(self).files(), name@, k) && s1 == s0.insert(
                                    i as int,
                                    PluginView { active: false, ..old(self).files()[k] },
                                );
                            assert(same_name(self.files()[k].name, s1[i as int].name));
                            lemma_insert_comes_from(s0, i as int, s1[i as int], self.files());
                            lemma_same_names_come_from(s1, self.entries(), self.files());
                            lemma_comes_from_trans(s0, s1, self.entries(), self.files());
                            assert(self.entries() =~= s0.insert(i as int, self.entries()[i as int]));
                            assert(added_at(s0, self.entries(), i as int));
                            assert(self.entries()[i as int] == (PluginView { active: true, ..self.files()[k] }));
                            crate::load_order::lemma_activation_step_absent(s0, self.files(), name@, k);
                            assert(insert_index(s0, s1[i as int]) == insert_index(s0, self.entries()[i as int]));
                            assert forall|c: int|
                                0 <= c < self.entries().len() && (#[trigger] self.entries()[c]).active implies is_active_in(s0, self.entries()[c].name)
                                    || same_name(self.entries()[c].name, name@) by {
                                if c < i {
                                    assert(self.entries()[c] == s0[c]);
                                } else if c > i {
                                    assert(self.entries()[c] == s0[c - 1]);
                                }
                            }
                        }
                    },
                    Err(_) => {
                        proof {
                            lemma_same_names_come_from(s0, self.entries(), self.files());
                        }
                    },
                }
            },
        }
    }

    /// Makes every implicitly active plugin that is listed or whose file
    /// is valid active.
    pub fn add_implicitly_active_plugins(&mut self)
        requires
            old(self).wf(),
        ensures
            final(self).wf(),
            final(self).game_settings == old(self).game_settings,
            final(self).plugin_files == old(self).plugin_files,
            grows(old(self).entries(), final(self).entries()),
            forall|k: int|
                0 <= k < old(self).game_settings.implicits().len() && (has_name(
                    old(self).entries(),
                    #[trigger] old(self).game_settings.implicits()[k]@,
                ) || has_name(old(self).files(), old(self).game_settings.implicits()[k]@))
                    ==> is_active_in(final(self).entries(), old(self).game_settings.implicits()[k]@),
            forall|c: int|
                0 <= c < final(self).entries().len() && (#[trigger] final(self).entries()[c]).active ==> is_active_in(
                    old(self).entries(),
                    final(self).entries()[c].name,
                ) || is_implicit(old(self).game_settings.implicits(), final(self).entries()[c].name),
            keeps_order(old(self).entries(), final(self).entries()),
            comes_from(old(self).entries(), final(self).entries(), old(self).files()),
            final(self).entries() == implicits_in_turn(
                old(self).entries(),
                old(self).files(),
                string_names(old(self).game_settings.implicits()),
            ),
    {
        let ghost s0 = self.entries();
        let ghost ins = string_names(self.game_settings.implicits());
        proof {
            lemma_same_names_come_from(s0, s0, self.files());
            assert(ins.subrange(0, 0) =~= Seq::<Seq<char>>::empty());
        }
        let n = self.game_settings.implicitly_active_plugins.len();
        let mut k: usize = 0;
        while k < n
            invariant
                self.wf(),
                0 <= k <= n,
                n == self.game_settings.implicits().len(),
                self.game_settings == old(self).game_settings,
                self.plugin_files == old(self).plugin_files,
                s0 == old(self).entries(),
                grows(s0, self.entries()),
                forall|j: int|
                    0 <= j < k && (has_name(s0, #[trigger] self.game_settings.implicits()[j]@)
                        || has_name(self.files(), self.game_settings.implicits()[j]@))
                        ==> is_active_in(self.entries(), self.game_settings.implicits()[j]@),
                forall|c: int|
                    0 <= c < self.entries().len() && (#[trigger] self.entries()[c]).active ==> is_active_in(
                        s0,
                        self.entries()[c].name,
                    ) || is_implicit(self.game_settings.implicits(), self.entries()[c].name),
                keeps_order(s0, self.entries()),
                comes_from(s0, self.entries(), self.files()),
                ins == string_names(self.game_settings.implicits()),
                self.entries() == implicits_in_turn(s0, self.files(), ins.subrange(0, k as int)),
            decreases n - k,
        {
            let ghost s1 = self.entries();
            let name = self.game_settings.implicitly_active_plugins[k].clone();
            proof {
                assert(ins.subrange(0, k + 1).drop_last() =~= ins.subrange(0, k as int));
                assert(ins[k as int] == name@);
            }
            if !self.is_active(name.as_str()) {
                self.activate_unvalidated(name.as_str());
                proof {
                    assert forall|c: int|
                        0 <= c < self.entries().len() && (#[trigger] self.entries()[c]).active implies is_active_in(
                            s0,
                            self.entries()[c].name,
                        ) || is_implicit(self.game_settings.implicits(), self.entries()[c].name) by {
                        if is_active_in(s1, self.entries()[c].name) {
                            let q = choose|q: int| 0 <= q < s1.len() && same_name(#[trigger] s1[q].name, self.entries()[c].name) && s1[q].active;
                            if is_active_in(s0, s1[q].name) {
                                let q0 = choose|q0: int| 0 <= q0 < s0.len() && same_name(#[trigger] s0[q0].name, s1[q].name) && s0[q0].active;
                                assert(same_name(s0[q0].name, self.entries()[c].name));
                            } else {
                                let m = choose|m: int| 0 <= m < self.game_settings.implicits().len() && same_name(#[trigger] self.game_settings.implicits()[m]@, s1[q].name);
                                assert(same_name(self.game_settings.implicits()[m]@, self.entries()[c].name));
                            }
                        } else {
                            assert(same_name(self.game_settings.implicits()[k as int]@, self.entries()[c].name));
                        }
                    }
                }
            }
            proof {
                lemma_grows_trans(s0, s1, self.entries());
                lemma_keeps_order_trans(s0, s1, self.entries());
                if self.entries() == s1 {
                    lemma_same_names_come_from(s1, self.entries(), self.files());
                }
                lemma_comes_from_trans(s0, s1, self.entries(), self.files());
            }
            k += 1;
        }
        assert(ins.subrange(0, n as int) =~= ins);
    }

    /// Adds every valid plugin file that is neither listed nor implicitly
    /// active, each where its kind belongs.
    pub fn add_missing_plugins(&mut self)
        requires
            old(self).wf(),
        ensures
            final(self).wf(),
            final(self).game_settings == old(self).game_settings,
            final(self).plugin_files == old(self).plugin_files,
            grows(old(self).entries(), final(self).entries()),
            forall|k: int|
                0 <= k < old(self).files().len() && !is_implicit(
                    old(self).game_settings.implicits(),
                    #[trigger] old(self).files()[k].name,
                ) ==> has_name(final(self).entries(), old(self).files()[k].name),
            keeps_order(old(self).entries(), final(self).entries()),
            comes_from(old(self).entries(), final(self).entries(), old(self).files()),
            forall|o: int| 0 <= o < old(self).entries().len() ==> final(self).entries().contains(#[trigger] old(self).entries()[o]),
            forall|c: int|
                0 <= c < final(self).entries().len() ==> old(self).entries().contains(#[trigger] final(self).entries()[c])
                    || (!final(self).entries()[c].active && has_name(old(self).files(), final(self).entries()[c].name)
                    && !is_implicit(old(self).game_settings.implicits(), final(self).entries()[c].name)),
            final(self).entries() == add_missing_in_turn(
                old(self).entries(),
                old(self).files(),
                old(self).game_settings.implicits(),
                entry_names(old(self).files()),
            ),
    {
        let ghost s0 = self.entries();
        let ghost fns = entry_names(self.files());
        proof {
            lemma_same_names_come_from(s0, s0, self.files());
            assert(fns.subrange(0, 0) =~= Seq::<Seq<char>>::empty());
        }
        let n = self.plugin_files.len();
        let mut k: usize = 0;
        while k < n
            invariant
                self.wf(),
                0 <= k <= n,
                n == self.files().len(),
                self.game_settings == old(self).game_settings,
                self.plugin_files == old(self).plugin_files,
                s0 == old(self).entries(),
                grows(s0, self.entries()),
                forall|j: int|
                    0 <= j < k && !is_implicit(
                        self.game_settings.implicits(),
                        #[trigger] self.files()[j].name,
                    ) ==> has_name(self.entries(), self.files()[j].name),
                keeps_order(s0, self.entries()),
                comes_from(s0, self.entries(), self.files()),
                forall|o: int| 0 <= o < s0.len() ==> self.entries().contains(#[trigger] s0[o]),
                forall|c: int|
                    0 <= c < self.entries().len() ==> s0.contains(#[trigger] self.entries()[c])
                        || (!self.entries()[c].active && has_name(self.files(), self.entries()[c].name)
                        && !is_implicit(self.game_settings.implicits(), self.entries()[c].name)),
                fns == entry_names(self.files()),
                self.entries() == add_missing_in_turn(s0, self.files(), self.game_settings.implicits(), fns.subrange(0, k as int)),
            decreases n - k,
        {
            let ghost s1 = self.entries();
            let name = self.plugin_files[k].name.clone();
            proof {
                assert(fns.subrange(0, k + 1).drop_last() =~= fns.subrange(0, k as int));
                assert(fns[k as int] == name@);
            }
            proof {
                assert(self.files()[k as int].name == name@);
            }
            if !self.game_settings.is_implicitly_active(name.as_str())
                && self.index_of(name.as_str()).is_none() {
                let r = self.add_to_load_order(name.as_str());
                proof {
                    assert(same_name(self.files()[k as int].name, name@));
                    assert(has_name(old(self).files(), name@));
                    let i = r->Ok_0;
                    let q = choose|q: int|
                        is_first_named(old(self).files(), name@, q) && self.entries() == s1.insert(
                            i as int,
                            PluginView { active: false, ..old(self).files()[q] },
                        );
                    lemma_insert_grows(s1, i as int, self.entries()[i as int]);
                    lemma_insert_keeps_order(s1, i as int, self.entries()[i as int]);
                    assert(same_name(self.entries()[i as int].name, name@));
                    assert(same_name(self.files()[q].name, self.entries()[i as int].name));
                    lemma_insert_comes_from(s1, i as int, self.entries()[i as int], self.files());
                    let v = self.entries()[i as int];
                    crate::load_order::lemma_choose_first(self.files(), name@, q);
                    lemma_insert_contains(s1, i as int, v);
                    assert forall|o: int| 0 <= o < s0.len() implies self.entries().contains(#[trigger] s0[o]) by {
                        assert(s1.contains(s0[o]));
                        let x = choose|x: int| 0 <= x < s1.len() && s1[x] == s0[o];
                        assert(self.entries().contains(s1[x]));
                    }
                    assert(!is_implicit(self.game_settings.implicits(), v.name)) by {
                        if is_implicit(self.game_settings.implicits(), v.name) {
                            let m = choose|m: int| 0 <= m < self.game_settings.implicits().len() && same_name(#[trigger] self.game_settings.implicits()[m]@, v.name);
                            assert(same_name(self.game_settings.implicits()[m]@, name@));
                        }
                    }
                    assert forall|c: int|
                        0 <= c < self.entries().len() implies s0.contains(#[trigger] self.entries()[c])
                            || (!self.entries()[c].active && has_name(self.files(), self.entries()[c].name)
                            && !is_implicit(self.game_settings.implicits(), self.entries()[c].name)) by {
                        if self.entries()[c] != v {
                            assert(s1.contains(self.entries()[c]));
                            let x = choose|x: int| 0 <= x < s1.len() && s1[x] == self.entries()[c];
                        } else {
                            assert(same_name(self.files()[q].name, v.name));
                        }
                    }
                }
            }
            proof {
                lemma_grows_trans(s0, s1, self.entries());
                lemma_keeps_order_trans(s0, s1, self.entries());
                if self.entries() == s1 {
                    lemma_same_names_come_from(s1, self.entries(), self.files());
                }
                lemma_comes_from_trans(s0, s1, self.entries(), self.files());
            }
            k += 1;
        }
        assert(fns.subrange(0, n as int) =~= fns);
    }

    /// Deactivates entries from the end of the order, skipping implicitly
    /// active ones, until both active caps hold again.
    pub fn deactivate_excess_plugins(&mut self)
        requires
            old(self).wf(),
        ensures
            final(self).wf(),
            final(self).game_settings == old(self).game_settings,
            final(self).plugin_files == old(self).plugin_files,
            final(self).entries().len() == old(self).entries().len(),
            forall|i: int|
                0 <= i < old(self).entries().len() ==> (#[trigger] final(self).entries()[i]) == (
                PluginView { active: final(self).entries()[i].active, ..old(self).entries()[i] }),
            forall|i: int|
                0 <= i < old(self).entries().len() && (#[trigger] final(self).entries()[i]).active
                    ==> old(self).entries()[i].active,
            forall|i: int|
                0 <= i < old(self).entries().len() && (#[trigger] old(self).entries()[i]).active
                    && is_implicit(old(self).game_settings.implicits(), old(self).entries()[i].name)
                    ==> final(self).entries()[i].active,
            within_caps(final(self).entries()) || forall|i: int|
                0 <= i < old(self).entries().len() && (#[trigger] final(self).entries()[i]).active
                    ==> is_implicit(old(self).game_settings.implicits(), old(self).entries()[i].name),
            within_caps(old(self).entries()) ==> final(self).entries() == old(self).entries(),
            exists|m: int| #[trigger] excess_cut(old(self).entries(), final(self).entries(), old(self).game_settings.implicits(), m),
            count_active_implicit(old(self).entries(), old(self).game_settings.implicits(), false) <= MAX_ACTIVE_NORMAL_PLUGINS
                && count_active_implicit(old(self).entries(), old(self).game_settings.implicits(), true) <= MAX_ACTIVE_LIGHT_MASTERS
                ==> within_caps(final(self).entries()),
    {
        let ghost s0 = self.entries();
        let ghost imps = self.game_settings.implicits();
        let mut normal = self.count_active_normal_plugins();
        let mut light = self.count_active_light_masters();
        let mut i: usize = self.plugins.len();
        while i > 0 && !(normal <= MAX_ACTIVE_NORMAL_PLUGINS && light <= MAX_ACTIVE_LIGHT_MASTERS)
            invariant
                self.wf(),
                0 <= i <= s0.len(),
                self.game_settings == old(self).game_settings,
                self.plugin_files == old(self).plugin_files,
                s0 == old(self).entries(),
                imps == self.game_settings.implicits(),
                self.entries().len() == s0.len(),
                normal == count_active(self.entries(), false),
                light == count_active(self.entries(), true),
                forall|k: int|
                    0 <= k < s0.len() ==> (#[trigger] self.entries()[k]) == (PluginView {
                        active: self.entries()[k].active,
                        ..s0[k]
                    }),
                forall|k: int| 0 <= k < s0.len() && (#[trigger] self.entries()[k]).active ==> s0[k].active,
                forall|k: int|
                    0 <= k < s0.len() && (#[trigger] s0[k]).active && is_implicit(imps, s0[k].name)
                        ==> self.entries()[k].active,
                within_caps(self.entries()) || forall|k: int|
                    i <= k < s0.len() && (#[trigger] self.entries()[k]).active ==> is_implicit(
                        imps,
                        s0[k].name,
                    ),
                within_caps(s0) ==> self.entries() == s0,
                forall|k: int| 0 <= k < i ==> #[trigger] self.entries()[k] == s0[k],
                forall|k: int|
                    i <= k < s0.len() ==> #[trigger] self.entries()[k] == (PluginView {
                        active: s0[k].active && is_implicit(imps, s0[k].name),
                        ..s0[k]
                    }),
                i < s0.len() && within_caps(self.entries()) ==> !within_caps(self.entries().update(i as int, s0[i as int])),
            decreases i,
        {
            i -= 1;
            let ghost s1 = self.entries();
            let active = self.plugins[i].is_active();
            let implicit = self.game_settings.is_implicitly_active(self.plugins[i].name());
            proof {
                assert(s1[i as int] == self.plugins@[i as int]@);
            }
            if active && !implicit {
                let is_light = self.plugins[i].is_light_master_file();
                proof {
                    lemma_count_active_update(s1, i as int, PluginView { active: false, ..s1[i as int] }, false);
                    lemma_count_active_update(s1, i as int, PluginView { active: false, ..s1[i as int] }, true);
                }
                if is_light {
                    light -= 1;
                } else {
                    normal -= 1;
                }
                self.set_active(i, false);
                proof {
                    assert(self.entries().update(i as int, s0[i as int]) =~= s1);
                }
            } else {
                proof {
                    assert(s1[i as int] == PluginView { active: s0[i as int].active && is_implicit(imps, s0[i as int].name), ..s0[i as int] });
                }
            }
        }
        proof {
            assert(excess_cut(s0, self.entries(), imps, i as int));
            if count_active_implicit(s0, imps, false) <= MAX_ACTIVE_NORMAL_PLUGINS && count_active_implicit(s0, imps, true)
                <= MAX_ACTIVE_LIGHT_MASTERS {
                lemma_excess_within_caps(s0, self.entries(), imps, i as int);
            }
        }
    }

    /// Moves the named entry to where its kind belongs, or adds the named
    /// plugin there if its file is valid. Does nothing and returns `None` if
    /// neither holds.
    pub fn move_or_insert_plugin_if_valid(&mut self, name: &str) -> (r: Result<Option<usize>, Error>)
        requires
            old(self).wf(),
        ensures
            final(self).wf(),
            final(self).game_settings == old(self).game_settings,
            final(self).plugin_files == old(self).plugin_files,
            r is Ok,
            r == Ok::<Option<usize>, Error>(None) <==> !has_name(old(self).entries(), name@) && !has_name(
                old(self).files(),
                name@,
            ),
            r == Ok::<Option<usize>, Error>(None) ==> final(self).entries() == old(self).entries(),
            r matches Ok(Some(i)) ==> is_first_named(final(self).entries(), name@, i as int),
            r matches Ok(Some(i)) ==> (final(self).entries()[i as int].master ==> (i + 1 == final(self).entries().len()
                || !final(self).entries()[i + 1].master) && forall|q: int| 0 <= q < i ==> (#[trigger] final(self).entries()[q]).master)
                && (!final(self).entries()[i as int].master ==> i + 1 == final(self).entries().len()),
            r matches Ok(Some(i)) ==> has_name(old(self).entries(), name@) ==> exists|p: int|
                is_first_named(old(self).entries(), name@, p) && final(self).entries()
                    == old(self).entries().remove(p).insert(i as int, old(self).entries()[p]),
            r matches Ok(Some(i)) ==> !has_name(old(self).entries(), name@) ==> exists|k: int|
                is_first_named(old(self).files(), name@, k) && final(self).entries()
                    == old(self).entries().insert(
                    i as int,
                    PluginView { active: false, ..old(self).files()[k] },
                ),
    {
        let ghost s0 = self.entries();
        match self.index_of(name) {
            Some(p) => {
                let plugin = self.plugins.remove(p);
                proof {
                    assert(self.entries() =~= s0.remove(p as int));
                    lemma_remove_keeps_wf(s0, p as int);
                    assert(plugin@ == s0[p as int]);
                }
                let i = self.insert(plugin);
                proof {
                    lemma_first_named_unique(self.entries(), name@, i as int);
                }
                Ok(Some(i))
            },
            None => {
                match self.plugin_file(name) {
                    Some(plugin) => {
                        let i = self.insert(plugin);
                        proof {
                            lemma_first_named_unique(self.entries(), name@, i as int);
                        }
                        Ok(Some(i))
                    },
                    None => Ok(None),
                }
            },
        }
    }

    /// Puts `plugin` at `position`, or at the end if `position` is past it.
    fn splice(&mut self, position: usize, plugin: Plugin)
        requires
            old(self).wf(),
            !has_name(old(self).entries(), plugin@.name),
            index_allowed(old(self).entries(), position as int, plugin@.master),
        ensures
            final(self).wf(),
            final(self).game_settings == old(self).game_settings,
            final(self).plugin_files == old(self).plugin_files,
            final(self).entries() == old(self).entries().insert(
                if position < old(self).entries().len() { position as int } else { old(self).entries().len() as int },
                plugin@,
            ),
    {
        let ghost s = self.entries();
        let ghost v = plugin@;
        let f = find_first_non_master_position(&self.plugins);
        let i = if position < self.plugins.len() { position } else { self.plugins.len() };
        proof {
            match f {
                Some(f) => {
                    assert(!s[f as int].master);
                    if v.master {
                        assert(position <= f);
                    } else {
                        assert(position >= f);
                        assert forall|j: int| i <= j < s.len() implies !(#[trigger] s[j]).master by {
                            if j > f && s[j].master {
                                assert(s[f as int].master);
                            }
                        }
                    }
                },
                None => {},
            }
            lemma_insert_keeps_wf(s, i as int, v);
        }
        self.plugins.insert(i, plugin);
        proof {
            assert(self.entries() =~= s.insert(i as int, v));
        }
    }

    /// Puts the named entry, or the named plugin if its file is valid, at
    /// `position` (at the end if `position` is past it), unless that would
    /// put a non-master before a master.
    pub fn move_or_insert_plugin_with_index(&mut self, name: &str, position: usize) -> (r: Result<(), Error>)
        requires
            old(self).wf(),
        ensures
            final(self).wf(),
            final(self).game_settings == old(self).game_settings,
            final(self).plugin_files == old(self).plugin_files,
            r is Err ==> final(self).entries() == old(self).entries(),
            r matches Err(e) ==> (e matches Error::InvalidPlugin(n) && n@ == name@) || e
                == Error::NonMasterBeforeMaster,
            r matches Err(Error::InvalidPlugin(_)) <==> !has_name(old(self).entries(), name@)
                && !has_name(old(self).files(), name@),
            forall|p: int|
                is_first_named(old(self).entries(), name@, p) ==> (r is Err <==> p != position
                    && !index_allowed(
                    old(self).entries().remove(p),
                    position as int,
                    old(self).entries()[p].master,
                )),
            forall|p: int|
                is_first_named(old(self).entries(), name@, p) && p != position && r is Ok
                    ==> final(self).entries() == old(self).entries().remove(p).insert(
                    if position < old(self).entries().len() - 1 { position as int } else { old(self).entries().len() - 1 },
                    old(self).entries()[p],
                ),
            forall|k: int|
                !has_name(old(self).entries(), name@) && is_first_named(old(self).files(), name@, k)
                    ==> (r is Err <==> !index_allowed(
                    old(self).entries(),
                    position as int,
                    old(self).files()[k].master,
                )),
            forall|k: int|
                !has_name(old(self).entries(), name@) && is_first_named(old(self).files(), name@, k)
                    && r is Ok ==> final(self).entries() == old(self).entries().insert(
                    if position < old(self).entries().len() { position as int } else { old(self).entries().len() as int },
                    PluginView { active: false, ..old(self).files()[k] },
                ),
            r is Ok ==> is_first_named(
                final(self).entries(),
                name@,
                if position < final(self).entries().len() { position as int } else { final(self).entries().len() - 1 },
            ),
            forall|p: int|
                is_first_named(old(self).entries(), name@, p) && p == position ==> r is Ok
                    && final(self).entries() == old(self).entries(),
    {
        let ghost s0 = self.entries();
        match self.index_of(name) {
            Some(p) => {
                if p == position {
                    return Ok(());
                }
                let plugin = self.plugins.remove(p);
                let ghost v = plugin@;
                proof {
                    assert(self.entries() =~= s0.remove(p as int));
                    lemma_remove_keeps_wf(s0, p as int);
                    assert(v == s0[p as int]);
                }
                let is_master = plugin.is_master_file();
                match validate_index(&self.plugins, position, is_master) {
                    Err(e) => {
                        self.plugins.insert(p, plugin);
                        proof {
                            assert(self.entries() =~= s0.remove(p as int).insert(p as int, v));
                            assert(self.entries() =~= s0);
                        }
                        Err(e)
                    },
                    Ok(()) => {
                        self.splice(position, plugin);
                        proof {
                            let i = if position < s0.len() - 1 { position as int } else { s0.len() - 1 };
                            assert(self.entries()[i] == v);
                            lemma_first_named_unique(self.entries(), name@, i);
                        }
                        Ok(())
                    },
                }
            },
            None => {
                match self.plugin_file(name) {
                    None => Err(Error::InvalidPlugin(name.to_string())),
                    Some(plugin) => {
                        let is_master = plugin.is_master_file();
                        match validate_index(&self.plugins, position, is_master) {
                            Err(e) => Err(e),
                            Ok(()) => {
                                let ghost v = plugin@;
                                self.splice(position, plugin);
                                proof {
                                    let i = if position < s0.len() { position as int } else { s0.len() as int };
                                    assert(self.entries()[i] == v);
                                    lemma_first_named_unique(self.entries(), name@, i);
                                }
                                Ok(())
                            },
                        }
                    },
                }
            },
        }
    }

    /// The entry that `name` stands for: a copy of the listed entry, or a
    /// fresh inactive entry for the plugin file.
    pub fn to_plugin(&self, name: &str) -> (r: Plugin)
        requires
            has_name(self.entries(), name@) || has_name(self.files(), name@),
        ensures
            r@ == resolved(self.entries(), self.files(), name@),
    {
        match position_of_name(&self.plugins, name) {
            Some(i) => {
                let p = self.plugins[i].with_active(self.plugins[i].active);
                proof {
                    let c = choose|c: int| is_first_named(self.entries(), name@, c);
                    assert(c == i);
                    assert(self.entries()[i as int] == self.plugins@[i as int]@);
                }
                p
            },
            None => {
                let k = position_of_name(&self.plugin_files, name).unwrap();
                let p = self.plugin_files[k].with_active(false);
                proof {
                    let c = choose|c: int| is_first_named(self.files(), name@, c);
                    assert(c == k);
                    assert(self.files()[k as int] == self.plugin_files@[k as int]@);
                }
                p
            },
        }
    }

    /// The entries that the names stand for, in the given order.
    pub fn map_to_plugins(&self, names: &[&str]) -> (r: Vec<Plugin>)
        requires
            forall|i: int|
                0 <= i < names@.len() ==> has_name(self.entries(), #[trigger] names@[i]@) || has_name(
                    self.files(),
                    names@[i]@,
                ),
        ensures
            views(r@) == resolved_all(self.entries(), self.files(), name_views(names@)),
    {
        let mut r: Vec<Plugin> = Vec::new();
        let mut i: usize = 0;
        while i < names.len()
            invariant
                0 <= i <= names@.len(),
                r@.len() == i,
                forall|k: int|
                    0 <= k < names@.len() ==> has_name(self.entries(), #[trigger] names@[k]@) || has_name(
                        self.files(),
                        names@[k]@,
                    ),
                forall|k: int|
                    0 <= k < i ==> (#[trigger] r@[k])@ == resolved(self.entries(), self.files(), names@[k]@),
            decreases names@.len() - i,
        {
            let p = self.to_plugin(names[i]);
            r.push(p);
            i += 1;
        }
        assert(views(r@) =~= resolved_all(self.entries(), self.files(), name_views(names@)));
        r
    }

    /// Replaces the order with the given names, keeping the active state of
    /// listed entries, then adds the missing plugin files and activates the
    /// implicitly active plugins.
    pub fn replace_plugins(&mut self, names: &[&str]) -> (r: Result<(), Error>)
        requires
            old(self).wf(),
        ensures
            final(self).wf(),
            final(self).game_settings == old(self).game_settings,
            final(self).plugin_files == old(self).plugin_files,
            r is Err ==> final(self).entries() == old(self).entries(),
            r matches Err(Error::DuplicatePlugin) <==> has_duplicates(name_views(names@)),
            r matches Err(Error::InvalidPlugin(_)) <==> !has_duplicates(name_views(names@)) && exists|i: int|
                0 <= i < names@.len() && !has_name(old(self).files(), #[trigger] names@[i]@),
            r matches Err(Error::NonMasterBeforeMaster) <==> !has_duplicates(name_views(names@))
                && (forall|i: int| 0 <= i < names@.len() ==> has_name(old(self).files(), #[trigger] names@[i]@))
                && !partitioned(resolved_all(old(self).entries(), old(self).files(), name_views(names@))),
            r matches Err(e) ==> e == Error::DuplicatePlugin || e == Error::NonMasterBeforeMaster || exists|i: int|
                0 <= i < names@.len() && !has_name(old(self).files(), #[trigger] names@[i]@)
                    && (e matches Error::InvalidPlugin(n) && n@ == names@[i]@),
            r is Ok ==> grows(
                resolved_all(old(self).entries(), old(self).files(), name_views(names@)),
                final(self).entries(),
            ),
            r is Ok ==> forall|i: int, j: int|
                0 <= i < j < names@.len() ==> precedes(final(self).entries(), #[trigger] names@[i]@, #[trigger] names@[j]@),
            r is Ok ==> comes_from(
                resolved_all(old(self).entries(), old(self).files(), name_views(names@)),
                final(self).entries(),
                old(self).files(),
            ),
            r is Ok ==> final(self).entries() == implicits_in_turn(
                add_missing_in_turn(
                    resolved_all(old(self).entries(), old(self).files(), name_views(names@)),
                    old(self).files(),
                    old(self).game_settings.implicits(),
                    entry_names(old(self).files()),
                ),
                old(self).files(),
                string_names(old(self).game_settings.implicits()),
            ),
            r is Ok ==> forall|c: int|
                0 <= c < final(self).entries().len() && (#[trigger] final(self).entries()[c]).active ==> is_active_in(
                    resolved_all(old(self).entries(), old(self).files(), name_views(names@)),
                    final(self).entries()[c].name,
                ) || is_implicit(old(self).game_settings.implicits(), final(self).entries()[c].name),
            r is Ok ==> forall|k: int|
                0 <= k < old(self).files().len() && !is_implicit(
                    old(self).game_settings.implicits(),
                    #[trigger] old(self).files()[k].name,
                ) ==> has_name(final(self).entries(), old(self).files()[k].name),
            r is Ok ==> forall|k: int|
                0 <= k < old(self).game_settings.implicits().len() && has_name(
                    old(self).files(),
                    #[trigger] old(self).game_settings.implicits()[k]@,
                ) ==> is_active_in(final(self).entries(), old(self).game_settings.implicits()[k]@),
    {
        let ghost e0 = self.entries();
        let ghost f0 = self.files();
        let ghost ns = name_views(names@);
        match validate_plugin_names(names, &self.plugin_files) {
            Err(e) => {
                return Err(e);
            },
            Ok(()) => {},
        }
        let plugins = self.map_to_plugins(names);
        let ghost rs = views(plugins@);
        if !is_partitioned_by_master_flag(&plugins) {
            return Err(Error::NonMasterBeforeMaster);
        }
        proof {
            assert forall|i: int| 0 <= i < rs.len() implies same_name(#[trigger] rs[i].name, ns[i]) by {
                assert(rs[i] == resolved(e0, f0, ns[i]));
                assert(ns[i] == names@[i]@);
                if has_name(e0, ns[i]) {
                    lemma_first_named_exists(e0, ns[i]);
                } else {
                    lemma_first_named_exists(f0, ns[i]);
                }
            }
            assert forall|a: int, b: int|
                0 <= a < rs.len() && 0 <= b < rs.len() && a != b implies !same_name(
                #[trigger] rs[a].name,
                #[trigger] rs[b].name,
            ) by {
                assert(same_name(rs[a].name, ns[a]));
                assert(same_name(rs[b].name, ns[b]));
                if a < b {
                    assert(!same_name(ns[a], ns[b]));
                } else {
                    assert(!same_name(ns[b], ns[a]));
                }
            }
        }
        self.plugins = plugins;
        assert(self.files() == f0);
        self.add_missing_plugins();
        let ghost e1 = self.entries();
        assert(forall|k: int|
            0 <= k < f0.len() && !is_implicit(self.game_settings.implicits(), #[trigger] f0[k].name)
                ==> has_name(e1, f0[k].name));
        self.add_implicitly_active_plugins();
        proof {
            lemma_grows_trans(rs, e1, self.entries());
            lemma_keeps_order_trans(rs, e1, self.entries());
            lemma_comes_from_trans(rs, e1, self.entries(), self.files());
            assert forall|c: int|
                0 <= c < self.entries().len() && (#[trigger] self.entries()[c]).active implies is_active_in(rs, self.entries()[c].name)
                    || is_implicit(self.game_settings.implicits(), self.entries()[c].name) by {
                if is_active_in(e1, self.entries()[c].name) {
                    let q = choose|q: int| 0 <= q < e1.len() && same_name(#[trigger] e1[q].name, self.entries()[c].name) && e1[q].active;
                    assert(rs.contains(e1[q]));
                    let x = choose|x: int| 0 <= x < rs.len() && rs[x] == e1[q];
                    assert(same_name(rs[x].name, self.entries()[c].name));
                }
            }
            assert forall|i: int, j: int| 0 <= i < j < names@.len() implies precedes(self.entries(), #[trigger] names@[i]@, #[trigger] names@[j]@) by {
                assert(same_name(rs[i].name, ns[i]) && same_name(rs[j].name, ns[j]));
                assert(ns[i] == names@[i]@ && ns[j] == names@[j]@);
                assert(precedes(rs, names@[i]@, names@[j]@));
            }
            assert forall|k: int|
                0 <= k < f0.len() && !is_implicit(self.game_settings.implicits(), #[trigger] f0[k].name)
                    implies has_name(self.entries(), f0[k].name) by {
                assert(has_name(e1, f0[k].name));
            }
        }
        Ok(())
    }

    /// The entry that the plugin files give for `old`: a copy of the file's
    /// entry, keeping `old`'s active flag, if the file's modification time
    /// or size changed; `old` itself otherwise.
    fn refresh(&self, old: &Plugin, k: usize) -> (r: Plugin)
        requires
            is_first_named(self.files(), old@.name, k as int),
        ensures
            r@ == refreshed(old@, self.files()),
    {
        proof {
            crate::load_order::lemma_choose_first(self.files(), old@.name, k as int);
            assert(self.files()[k as int] == self.plugin_files@[k as int]@);
        }
        let file = &self.plugin_files[k];
        if file.modification_time != old.modification_time || file.size != old.size {
            file.with_active(old.active)
        } else {
            old.with_active(old.active)
        }
    }

    /// Drops the entries whose plugin file is gone and refreshes in place,
    /// from the plugin files, those whose file's modification time or size
    /// changed. Names stay unique; masters stay first unless a refreshed
    /// entry changed its kind.
    pub fn reload_changed_plugins(&mut self)
        requires
            old(self).wf(),
        ensures
            final(self).game_settings == old(self).game_settings,
            final(self).plugin_files == old(self).plugin_files,
            final(self).entries() == reloaded(old(self).entries(), old(self).files()),
            unique_names(final(self).entries()),
            kinds_kept(old(self).entries(), old(self).files()) ==> final(self).wf(),
    {
        let ghost s0 = self.entries();
        let ghost f = self.files();
        let ghost mut src: Seq<int> = Seq::empty();
        let mut kept: Vec<Plugin> = Vec::new();
        let mut i: usize = 0;
        proof {
            lemma_refreshed_names(s0, f);
        }
        while i < self.plugins.len()
            invariant
                self.wf(),
                *self == *old(self),
                s0 == self.entries(),
                f == self.files(),
                0 <= i <= s0.len(),
                views(kept@) == reloaded(s0.subrange(0, i as int), f),
                src.len() == kept@.len(),
                forall|c: int|
                    0 <= c < kept@.len() ==> 0 <= #[trigger] src[c] < i && kept@[c]@ == refreshed(s0[src[c]], f)
                        && has_name(f, s0[src[c]].name),
                forall|a: int, b: int| 0 <= a < b < src.len() ==> src[a] < src[b],
                forall|o: int| 0 <= o < s0.len() && has_name(f, s0[o].name) ==> same_name(#[trigger] refreshed(s0[o], f).name, s0[o].name),
            decreases s0.len() - i,
        {
            proof {
                assert(s0.subrange(0, i + 1).drop_last() =~= s0.subrange(0, i as int));
                assert(s0[i as int] == self.plugins@[i as int]@);
            }
            match position_of_name(&self.plugin_files, self.plugins[i].name()) {
                None => {},
                Some(k) => {
                    let r = self.refresh(&self.plugins[i], k);
                    kept.push(r);
                    proof {
                        src = src.push(i as int);
                        assert(views(kept@) =~= reloaded(s0.subrange(0, i as int), f).push(r@));
                    }
                },
            }
            i += 1;
        }
        proof {
            assert(s0.subrange(0, i as int) =~= s0);
            let kv = views(kept@);
            assert forall|a: int, b: int| 0 <= a < kv.len() && 0 <= b < kv.len() && a != b implies !same_name(#[trigger] kv[a].name, #[trigger] kv[b].name) by {
                assert(same_name(kv[a].name, s0[src[a]].name));
                assert(same_name(kv[b].name, s0[src[b]].name));
                if a < b {
                    assert(src[a] < src[b]);
                } else {
                    assert(src[b] < src[a]);
                }
            }
            if kinds_kept(s0, f) {
                assert forall|a: int, b: int| 0 <= a < b < kv.len() && (#[trigger] kv[b]).master implies (#[trigger] kv[a]).master by {
                    assert(src[a] < src[b]);
                    assert(kv[a].master == s0[src[a]].master);
                    assert(kv[b].master == s0[src[b]].master);
                }
            }
        }
        self.plugins = kept;
    }

    /// Makes every entry inactive.
    pub fn deactivate_all(&mut self)
        requires
            old(self).wf(),
        ensures
            final(self).wf(),
            final(self).game_settings == old(self).game_settings,
            final(self).plugin_files == old(self).plugin_files,
            final(self).entries().len() == old(self).entries().len(),
            forall|i: int|
                0 <= i < old(self).entries().len() ==> (#[trigger] final(self).entries()[i]) == (
                PluginView { active: false, ..old(self).entries()[i] }),
    {
        let ghost s = self.entries();
        let mut i: usize = 0;
        while i < self.plugins.len()
            invariant
                0 <= i <= s.len(),
                self.entries().len() == s.len(),
                self.game_settings == old(self).game_settings,
                self.plugin_files == old(self).plugin_files,
                s == old(self).entries(),
                forall|k: int|
                    0 <= k < i ==> (#[trigger] self.entries()[k]) == (PluginView {
                        active: false,
                        ..s[k]
                    }),
                forall|k: int| i <= k < s.len() ==> (#[trigger] self.entries()[k]) == s[k],
            decreases s.len() - i,
        {
            let ghost before = self.entries();
            let ghost pv = self.plugins@;
            self.plugins[i].deactivate();
            assert(self.plugins@.len() == pv.len());
            assert(self.plugins@[i as int]@ == PluginView { active: false, ..pv[i as int]@ });
            assert(forall|k: int| 0 <= k < pv.len() && k != i ==> self.plugins@[k] == pv[k]);
            assert(before[i as int] == pv[i as int]@);
            assert(before[i as int] == s[i as int]);
            assert forall|k: int| 0 <= k < pv.len() implies #[trigger] self.entries()[k] == before.update(i as int, PluginView { active: false, ..s[i as int] })[k] by {
                assert(self.entries()[k] == self.plugins@[k]@);
                assert(before[k] == pv[k]@);
            }
            assert(self.entries() =~= before.update(i as int, PluginView { active: false, ..s[i as int] }));
            i += 1;
        }
        assert forall|a: int, b: int|
            0 <= a < s.len() && 0 <= b < s.len() && a != b implies !same_name(
            #[trigger] self.entries()[a].name,
            #[trigger] self.entries()[b].name,
        ) by {
            assert(self.entries()[a].name == s[a].name && self.entries()[b].name == s[b].name);
        }
        assert forall|a: int, b: int|
            0 <= a < b < s.len() && (#[trigger] self.entries()[b]).master implies (#[trigger] self.entries()[a]).master by {
            assert(self.entries()[a].master == s[a].master && self.entries()[b].master
                == s[b].master);
        }
    }
}

} // verus!
