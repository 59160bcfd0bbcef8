use vstd::prelude::*;

use crate::enums::Error;
use crate::load_order::{
    cap, count_active, count_kind, grows, has_name, is_active_in, is_first_named,
    lemma_count_active_insert, lemma_count_active_update, name_views, position_of_name, resolved,
    resolved_all, set_active_view, within_caps, MAX_ACTIVE_LIGHT_MASTERS, MAX_ACTIVE_NORMAL_PLUGINS,
};
use crate::load_order::lemma_first_named_exists;
use crate::names::same_name;
use crate::plugin::{Plugin, PluginView};
use crate::settings::is_implicit;
use crate::timestamp_based::TimestampBasedLoadOrder;

verus! {

/// The name stands for a listed entry or a valid plugin file.
pub open spec fn resolvable(lo: &TimestampBasedLoadOrder, n: Seq<char>) -> bool {
    has_name(lo.entries(), n) || has_name(lo.files(), n)
}

impl TimestampBasedLoadOrder {
    /// Whether the active entries of the given kind already fill their cap.
    fn at_cap(&self, light: bool) -> (r: bool)
        ensures
            r == (count_active(self.entries(), light) >= cap(light)),
    {
        if light {
            self.count_active_light_masters() >= MAX_ACTIVE_LIGHT_MASTERS
        } else {
            self.count_active_normal_plugins() >= MAX_ACTIVE_NORMAL_PLUGINS
        }
    }

    /// The numbers of normal and light plugins among the entries that the
    /// names stand for, or the first name that stands for none.
    pub fn count_plugins(&self, names: &[&str]) -> (r: Result<(usize, usize), Error>)
        ensures
            r is Ok <==> forall|i: int| 0 <= i < names@.len() ==> resolvable(self, #[trigger] names@[i]@),
            r matches Ok((normal, light)) ==> normal == count_kind(resolved_all(self.entries(), self.files(), name_views(names@)), false)
                && light == count_kind(resolved_all(self.entries(), self.files(), name_views(names@)), true),
            r matches Err(e) ==> exists|i: int|
                0 <= i < names@.len() && !resolvable(self, #[trigger] names@[i]@) && (forall|j: int|
                    0 <= j < i ==> resolvable(self, #[trigger] names@[j]@)) && (e matches Error::InvalidPlugin(n)
                    && n@ == names@[i]@),
    {
        let ghost e = self.entries();
        let ghost f = self.files();
        let ghost ns = name_views(names@);
        let mut normal: usize = 0;
        let mut light: usize = 0;
        let mut i: usize = 0;
        while i < names.len()
            invariant
                0 <= i <= names@.len(),
                e == self.entries(),
                f == self.files(),
                ns == name_views(names@),
                forall|j: int| 0 <= j < i ==> resolvable(self, #[trigger] names@[j]@),
                normal == count_kind(resolved_all(e, f, ns.subrange(0, i as int)), false),
                light == count_kind(resolved_all(e, f, ns.subrange(0, i as int)), true),
                normal + light == i,
            decreases names@.len() - i,
        {
            let is_light = match position_of_name(&self.plugins, names[i]) {
                Some(x) => {
                    proof {
                        assert(e[x as int] == self.plugins@[x as int]@);
                        let c = choose|c: int| is_first_named(e, names@[i as int]@, c);
                        assert(c == x as int) by {
                            if c < x { assert(!same_name(e[c].name, names@[i as int]@)); }
                            if c > x { assert(!same_name(e[x as int].name, names@[i as int]@)); }
                        }
                    }
                    self.plugins[x].is_light_master_file()
                },
                None => match self.plugin_file(names[i]) {
                    Some(p) => {
                        proof {
                            let k = choose|k: int| is_first_named(f, names@[i as int]@, k) && p@ == (PluginView { active: false, ..f[k] });
                            let c = choose|c: int| is_first_named(f, names@[i as int]@, c);
                            assert(c == k) by {
                                if c < k { assert(!same_name(f[c].name, names@[i as int]@)); }
                                if c > k { assert(!same_name(f[k].name, names@[i as int]@)); }
                            }
                        }
                        p.is_light_master_file()
                    },
                    None => {
                        return Err(Error::InvalidPlugin(names[i].to_string()));
                    },
                },
            };
            proof {
                let a = resolved_all(e, f, ns.subrange(0, i + 1));
                assert(a.drop_last() =~= resolved_all(e, f, ns.subrange(0, i as int)));
                assert(a.last() == resolved(e, f, names@[i as int]@));
            }
            if is_light {
                light += 1;
            } else {
                normal += 1;
            }
            i += 1;
        }
        assert(ns.subrange(0, i as int) =~= ns);
        Ok((normal, light))
    }

    /// Whether some name of the list denotes the same file as `name`.
    fn is_listed(names: &[&str], name: &str) -> (r: bool)
        ensures
            r == exists|i: int| 0 <= i < names@.len() && same_name(#[trigger] names@[i]@, name@),
    {
        let mut i: usize = 0;
        while i < names.len()
            invariant
                0 <= i <= names@.len(),
                forall|j: int| 0 <= j < i ==> !same_name(#[trigger] names@[j]@, name@),
            decreases names@.len() - i,
        {
            if crate::names::names_match(names[i], name) {
                return true;
            }
            i += 1;
        }
        false
    }

    /// Makes exactly the named plugins active, adding those that are not
    /// listed, provided each names a valid plugin, both caps hold for them,
    /// and every implicitly active plugin whose file is valid is among them.
    #[verifier::rlimit(100)]
    pub fn set_active_plugins(&mut self, names: &[&str]) -> (r: Result<(), Error>)
        requires
            old(self).wf(),
        ensures
            final(self).wf(),
            final(self).game_settings == old(self).game_settings,
            final(self).plugin_files == old(self).plugin_files,
            r is Err ==> final(self).entries() == old(self).entries(),
            r matches Err(Error::InvalidPlugin(_)) <==> exists|i: int|
                0 <= i < names@.len() && !resolvable(old(self), #[trigger] names@[i]@),
            r matches Err(Error::TooManyActivePlugins) <==> (forall|i: int|
                0 <= i < names@.len() ==> resolvable(old(self), #[trigger] names@[i]@)) && (count_kind(
                resolved_all(old(self).entries(), old(self).files(), name_views(names@)),
                false,
            ) > MAX_ACTIVE_NORMAL_PLUGINS || count_kind(
                resolved_all(old(self).entries(), old(self).files(), name_views(names@)),
                true,
            ) > MAX_ACTIVE_LIGHT_MASTERS),
            r matches Err(Error::ImplicitlyActivePlugin(m)) ==> exists|k: int|
                0 <= k < old(self).game_settings.implicits().len() && m@ == (#[trigger] old(self).game_settings.implicits()[k])@
                    && has_name(old(self).files(), m@) && !(exists|i: int|
                    0 <= i < names@.len() && same_name(#[trigger] names@[i]@, m@)),
            r matches Err(e) ==> e is InvalidPlugin || e is TooManyActivePlugins || e is ImplicitlyActivePlugin,
            r matches Err(Error::ImplicitlyActivePlugin(_)) <==> (forall|i: int|
                0 <= i < names@.len() ==> resolvable(old(self), #[trigger] names@[i]@)) && count_kind(
                resolved_all(old(self).entries(), old(self).files(), name_views(names@)),
                false,
            ) <= MAX_ACTIVE_NORMAL_PLUGINS && count_kind(
                resolved_all(old(self).entries(), old(self).files(), name_views(names@)),
                true,
            ) <= MAX_ACTIVE_LIGHT_MASTERS && exists|k: int|
                0 <= k < old(self).game_settings.implicits().len() && has_name(
                    old(self).files(),
                    (#[trigger] old(self).game_settings.implicits()[k])@,
                ) && !(exists|i: int|
                    0 <= i < names@.len() && same_name(#[trigger] names@[i]@, old(self).game_settings.implicits()[k]@)),
            r is Ok ==> forall|i: int| 0 <= i < names@.len() ==> is_active_in(final(self).entries(), #[trigger] names@[i]@),
            r is Ok ==> forall|c: int|
                0 <= c < final(self).entries().len() && (#[trigger] final(self).entries()[c]).active ==> exists|i: int|
                    0 <= i < names@.len() && same_name(final(self).entries()[c].name, #[trigger] names@[i]@),
            r is Ok ==> forall|n: Seq<char>| has_name(old(self).entries(), n) ==> #[trigger] has_name(final(self).entries(), n),
            r is Ok ==> within_caps(final(self).entries()),
            r is Ok ==> final(self).entries() == crate::load_order::activate_in_turn(
                crate::load_order::deactivated(old(self).entries()),
                old(self).files(),
                name_views(names@),
            ),
            r is Ok ==> crate::load_order::keeps_order(old(self).entries(), final(self).entries()),
            r is Ok ==> crate::load_order::comes_from(old(self).entries(), final(self).entries(), old(self).files()),
    {
        let (normal, light) = match self.count_plugins(names) {
            Err(e) => {
                return Err(e);
            },
            Ok(c) => c,
        };
        if normal > MAX_ACTIVE_NORMAL_PLUGINS || light > MAX_ACTIVE_LIGHT_MASTERS {
            return Err(Error::TooManyActivePlugins);
        }
        let n = self.game_settings.implicitly_active_plugins.len();
        let mut k: usize = 0;
        while k < n
            invariant
                0 <= k <= n,
                *self == *old(self),
                self.wf(),
                n == self.game_settings.implicits().len(),
                forall|j: int| 0 <= j < names@.len() ==> resolvable(old(self), #[trigger] names@[j]@),
                !(count_kind(resolved_all(old(self).entries(), old(self).files(), name_views(names@)), false)
                    > MAX_ACTIVE_NORMAL_PLUGINS || count_kind(resolved_all(old(self).entries(), old(self).files(), name_views(names@)), true)
                    > MAX_ACTIVE_LIGHT_MASTERS),
                forall|j: int|
                    0 <= j < k && has_name(self.files(), (#[trigger] self.game_settings.implicits()[j])@)
                        ==> exists|i: int| 0 <= i < names@.len() && same_name(#[trigger] names@[i]@, self.game_settings.implicits()[j]@),
            decreases n - k,
        {
            let implicit = &self.game_settings.implicitly_active_plugins[k];
            if position_of_name(&self.plugin_files, implicit.as_str()).is_some()
                && !Self::is_listed(names, implicit.as_str()) {
                return Err(Error::ImplicitlyActivePlugin(implicit.clone()));
            }
            k += 1;
        }
        let ghost e = self.entries();
        let ghost f0 = self.files();
        let ghost ns = name_views(names@);
        self.deactivate_all();
        proof {
            assert(self.entries() =~= crate::load_order::deactivated(e));
            assert(ns.subrange(0, 0) =~= Seq::<Seq<char>>::empty());
        }
        proof {
            assert forall|m: Seq<char>| has_name(e, m) implies #[trigger] has_name(self.entries(), m) by {
                let c = choose|c: int| 0 <= c < e.len() && same_name(#[trigger] e[c].name, m);
                assert(self.entries()[c].name == e[c].name);
            }
            assert forall|c: int| 0 <= c < self.entries().len() implies !(#[trigger] self.entries()[c]).active by {
                assert(self.entries()[c] == PluginView { active: false, ..e[c] });
            }
            assert forall|c: int| 0 <= c < self.entries().len() implies (#[trigger] self.entries()[c]).light
                == resolved(e, f0, self.entries()[c].name).light by {
                assert(self.entries()[c] == PluginView { active: false, ..e[c] });
                crate::mutable::lemma_first_named_unique(e, e[c].name, c);
                crate::load_order::lemma_choose_first(e, e[c].name, c);
            }
            crate::load_order::lemma_same_names_keep_order(e, self.entries());
            crate::load_order::lemma_same_names_come_from(e, self.entries(), self.files());
            crate::load_order::lemma_count_active_none(self.entries(), false);
            crate::load_order::lemma_count_active_none(self.entries(), true);
            assert(resolved_all(e, f0, ns.subrange(0, 0)) =~= Seq::<PluginView>::empty());
        }
        let mut i: usize = 0;
        while i < names.len()
            invariant
                self.wf(),
                0 <= i <= names@.len(),
                self.game_settings == old(self).game_settings,
                self.plugin_files == old(self).plugin_files,
                e == old(self).entries(),
                forall|j: int| 0 <= j < names@.len() ==> resolvable(old(self), #[trigger] names@[j]@),
                forall|m: Seq<char>| has_name(e, m) ==> #[trigger] has_name(self.entries(), m),
                forall|j: int| 0 <= j < i ==> is_active_in(self.entries(), #[trigger] names@[j]@),
                forall|c: int|
                    0 <= c < self.entries().len() && (#[trigger] self.entries()[c]).active ==> exists|j: int|
                        0 <= j < i && same_name(self.entries()[c].name, #[trigger] names@[j]@),
                f0 == self.files(),
                ns == name_views(names@),
                forall|c: int| 0 <= c < self.entries().len() ==> (#[trigger] self.entries()[c]).light
                    == resolved(e, f0, self.entries()[c].name).light,
                count_active(self.entries(), false) <= count_kind(resolved_all(e, f0, ns.subrange(0, i as int)), false),
                count_active(self.entries(), true) <= count_kind(resolved_all(e, f0, ns.subrange(0, i as int)), true),
                count_kind(resolved_all(e, f0, ns), false) <= MAX_ACTIVE_NORMAL_PLUGINS,
                count_kind(resolved_all(e, f0, ns), true) <= MAX_ACTIVE_LIGHT_MASTERS,
                crate::load_order::keeps_order(e, self.entries()),
                crate::load_order::comes_from(e, self.entries(), f0),
                self.entries() == crate::load_order::activate_in_turn(crate::load_order::deactivated(e), f0, ns.subrange(0, i as int)),
            decreases names@.len() - i,
        {
            let ghost s1 = self.entries();
            proof {
                crate::load_order::lemma_activate_in_turn_next(crate::load_order::deactivated(e), f0, ns, i as int);
                let a = resolved_all(e, f0, ns.subrange(0, i + 1));
                assert(a.drop_last() =~= resolved_all(e, f0, ns.subrange(0, i as int)));
                assert(a.last() == resolved(e, f0, names@[i as int]@));
            }
            match self.index_of(names[i]) {
                Some(x) => {
                    self.set_active(x, true);
                    proof {
                        crate::load_order::lemma_activation_step_present(s1, f0, ns[i as int], x as int);
                        crate::load_order::lemma_resolved_same_name(e, f0, names@[i as int]@, s1[x as int].name);
                        let v = PluginView { active: true, ..s1[x as int] };
                        lemma_count_active_update(s1, x as int, v, false);
                        lemma_count_active_update(s1, x as int, v, true);
                        assert forall|c: int| 0 <= c < self.entries().len() implies (#[trigger] self.entries()[c]).light
                            == resolved(e, f0, self.entries()[c].name).light by {
                            assert(self.entries()[c].light == s1[c].light && self.entries()[c].name == s1[c].name);
                        }
                        crate::load_order::lemma_activate_grows(s1, x as int);
                        crate::load_order::lemma_same_names_keep_order(s1, self.entries());
                        crate::load_order::lemma_keeps_order_trans(e, s1, self.entries());
                        crate::load_order::lemma_same_names_come_from(s1, self.entries(), f0);
                        crate::load_order::lemma_comes_from_trans(e, s1, self.entries(), f0);
                        assert forall|c: int|
                            0 <= c < self.entries().len() && (#[trigger] self.entries()[c]).active implies exists|j: int|
                                0 <= j < i + 1 && same_name(self.entries()[c].name, #[trigger] names@[j]@) by {
                            if c == x {
                                assert(same_name(self.entries()[c].name, names@[i as int]@));
                            } else {
                                assert(self.entries()[c] == s1[c]);
                            }
                        }
                    }
                },
                None => {
                    let mut p = self.plugin_file(names[i]).unwrap();
                    p.activate();
                    let ghost v = p@;
                    let x = self.insert(p);
                    proof {
                        crate::load_order::lemma_insert_grows(s1, x as int, v);
                        crate::load_order::lemma_insert_keeps_order(s1, x as int, v);
                        crate::load_order::lemma_keeps_order_trans(e, s1, self.entries());
                        assert(same_name(v.name, names@[i as int]@));
                        assert(!has_name(e, names@[i as int]@));
                        let k = choose|k: int| is_first_named(f0, names@[i as int]@, k) && v == (PluginView { active: true, ..f0[k] });
                        crate::load_order::lemma_choose_first(f0, names@[i as int]@, k);
                        crate::load_order::lemma_activation_step_absent(s1, f0, ns[i as int], k);
                        assert(same_name(f0[k].name, v.name));
                        crate::load_order::lemma_insert_comes_from(s1, x as int, v, f0);
                        crate::load_order::lemma_comes_from_trans(e, s1, self.entries(), f0);
                        crate::load_order::lemma_resolved_same_name(e, f0, names@[i as int]@, v.name);
                        lemma_count_active_insert(s1, x as int, v, false);
                        lemma_count_active_insert(s1, x as int, v, true);
                        assert forall|c: int| 0 <= c < self.entries().len() implies (#[trigger] self.entries()[c]).light
                            == resolved(e, f0, self.entries()[c].name).light by {
                            if c < x {
                                assert(self.entries()[c] == s1[c]);
                            } else if c > x {
                                assert(self.entries()[c] == s1[c - 1]);
                            }
                        }
                        assert forall|c: int|
                            0 <= c < self.entries().len() && (#[trigger] self.entries()[c]).active implies exists|j: int|
                                0 <= j < i + 1 && same_name(self.entries()[c].name, #[trigger] names@[j]@) by {
                            if c == x {
                                assert(same_name(self.entries()[c].name, names@[i as int]@));
                            } else if c < x {
                                assert(self.entries()[c] == s1[c]);
                            } else {
                                assert(self.entries()[c] == s1[c - 1]);
                            }
                        }
                    }
                },
            }
            i += 1;
        }
        assert(ns.subrange(0, i as int) =~= ns);
        Ok(())
    }

    /// Activates the named plugin, adding it if it is not listed and its
    /// file is valid, unless its kind's cap is already reached.
    pub fn activate(&mut self, name: &str) -> (r: Result<(), Error>)
        requires
            old(self).wf(),
        ensures
            final(self).wf(),
            final(self).game_settings == old(self).game_settings,
            final(self).plugin_files == old(self).plugin_files,
            r is Err ==> final(self).entries() == old(self).entries(),
            r matches Err(e) ==> e == Error::TooManyActivePlugins || (e matches Error::InvalidPlugin(n)
                && n@ == name@),
            r matches Err(Error::InvalidPlugin(_)) <==> !has_name(old(self).entries(), name@)
                && !has_name(old(self).files(), name@),
            forall|i: int|
                is_first_named(old(self).entries(), name@, i) ==> (r is Err <==> !old(self).entries()[i].active
                    && count_active(old(self).entries(), old(self).entries()[i].light) >= cap(
                    old(self).entries()[i].light,
                )),
            forall|i: int|
                is_first_named(old(self).entries(), name@, i) && r is Ok ==> final(self).entries()
                    == old(self).entries().update(i, PluginView { active: true, ..old(self).entries()[i] }),
            forall|k: int|
                !has_name(old(self).entries(), name@) && is_first_named(old(self).files(), name@, k) ==> (
                r is Err <==> count_active(old(self).entries(), old(self).files()[k].light) >= cap(
                    old(self).files()[k].light,
                )),
            forall|k: int|
                !has_name(old(self).entries(), name@) && is_first_named(old(self).files(), name@, k)
                    && r is Ok ==> exists|j: int|
                    0 <= j <= old(self).entries().len() && final(self).entries() == #[trigger] old(self).entries().insert(
                        j,
                        set_active_view(old(self).files()[k], true),
                    ) && (old(self).files()[k].master ==> (j == old(self).entries().len() || !old(self).entries()[j].master)
                        && forall|q: int| 0 <= q < j ==> (#[trigger] old(self).entries()[q]).master)
                    && (!old(self).files()[k].master ==> j == old(self).entries().len()),
            r is Ok ==> is_active_in(final(self).entries(), name@),
            within_caps(old(self).entries()) ==> within_caps(final(self).entries()),
    {
        let ghost e = self.entries();
        match self.index_of(name) {
            Some(i) => {
                assert(e[i as int] == self.plugins@[i as int]@);
                if self.plugins[i].is_active() {
                    assert(e.update(i as int, PluginView { active: true, ..e[i as int] }) =~= e);
                    return Ok(());
                }
                let light = self.plugins[i].is_light_master_file();
                if self.at_cap(light) {
                    return Err(Error::TooManyActivePlugins);
                }
                proof {
                    let v = PluginView { active: true, ..e[i as int] };
                    lemma_count_active_update(e, i as int, v, true);
                    lemma_count_active_update(e, i as int, v, false);
                    crate::load_order::lemma_activate_grows(e, i as int);
                }
                self.set_active(i, true);
                Ok(())
            },
            None => {
                match self.plugin_file(name) {
                    None => Err(Error::InvalidPlugin(name.to_string())),
                    Some(p) => {
                        if self.at_cap(p.is_light_master_file()) {
                            return Err(Error::TooManyActivePlugins);
                        }
                        let mut p = p;
                        p.activate();
                        let ghost v = p@;
                        let j = self.insert(p);
                        proof {
                            lemma_count_active_insert(e, j as int, v, true);
                            lemma_count_active_insert(e, j as int, v, false);
                            crate::load_order::lemma_insert_grows(e, j as int, v);
                            let k = choose|k: int| is_first_named(self.files(), name@, k) && v == (PluginView { active: true, ..self.files()[k] });
                            assert forall|k2: int| is_first_named(self.files(), name@, k2) implies k2 == k by {
                                if k2 < k { assert(!same_name(self.files()[k2].name, name@)); }
                                if k2 > k { assert(!same_name(self.files()[k].name, name@)); }
                            }
                            assert(self.entries()[j as int] == v);
                            assert(v == set_active_view(self.files()[k], true));
                            assert(self.entries() == e.insert(j as int, set_active_view(self.files()[k], true)));
                        }
                        Ok(())
                    },
                }
            },
        }
    }

    /// Deactivates the named entry, unless the game always loads it.
    pub fn deactivate(&mut self, name: &str) -> (r: Result<(), Error>)
        requires
            old(self).wf(),
        ensures
            final(self).wf(),
            final(self).game_settings == old(self).game_settings,
            final(self).plugin_files == old(self).plugin_files,
            r is Err ==> final(self).entries() == old(self).entries(),
            r matches Err(Error::ImplicitlyActivePlugin(n)) <==> is_implicit(
                old(self).game_settings.implicits(),
                name@,
            ),
            r matches Err(Error::ImplicitlyActivePlugin(n)) ==> n@ == name@,
            r matches Err(Error::PluginNotFound(n)) <==> !is_implicit(
                old(self).game_settings.implicits(),
                name@,
            ) && !has_name(old(self).entries(), name@),
            r matches Err(Error::PluginNotFound(n)) ==> n@ == name@,
            r matches Err(e) ==> e is ImplicitlyActivePlugin || e is PluginNotFound,
            forall|i: int|
                is_first_named(old(self).entries(), name@, i) && r is Ok ==> final(self).entries()
                    == old(self).entries().update(i, PluginView { active: false, ..old(self).entries()[i] }),
    {
        if self.game_settings.is_implicitly_active(name) {
            return Err(Error::ImplicitlyActivePlugin(name.to_string()));
        }
        match self.index_of(name) {
            None => Err(Error::PluginNotFound(name.to_string())),
            Some(i) => {
                self.set_active(i, false);
                Ok(())
            },
        }
    }
}

} // verus!
