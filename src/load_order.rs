use vstd::prelude::*;

use crate::names::same_name;
use crate::plugin::{Plugin, PluginView};
use crate::settings::is_implicit;

verus! {

/// The most plugins that count against the normal cap that may be active.
pub const MAX_ACTIVE_NORMAL_PLUGINS: usize = 255;

/// The most light masters that may be active.
pub const MAX_ACTIVE_LIGHT_MASTERS: usize = 4096;

pub open spec fn views(s: Seq<Plugin>) -> Seq<PluginView> {
    s.map_values(|p: Plugin| p@)
}

/// No two entries name the same file.
pub open spec fn unique_names(s: Seq<PluginView>) -> bool {
    forall|i: int, j: int|
        0 <= i < s.len() && 0 <= j < s.len() && i != j ==> !same_name(
            #[trigger] s[i].name,
            #[trigger] s[j].name,
        )
}

/// Every master entry comes before every non-master entry.
pub open spec fn partitioned(s: Seq<PluginView>) -> bool {
    forall|i: int, j: int| 0 <= i < j < s.len() && (#[trigger] s[j]).master ==> (#[trigger] s[i]).master
}

/// Some entry of `s` is named `name`.
pub open spec fn has_name(s: Seq<PluginView>, name: Seq<char>) -> bool {
    exists|i: int| 0 <= i < s.len() && same_name(#[trigger] s[i].name, name)
}

/// Entry `i` is the first entry of `s` named `name`.
pub open spec fn is_first_named(s: Seq<PluginView>, name: Seq<char>, i: int) -> bool {
    0 <= i < s.len() && same_name(s[i].name, name) && forall|j: int|
        0 <= j < i ==> !same_name(#[trigger] s[j].name, name)
}

/// Some entry named `name` is active.
pub open spec fn is_active_in(s: Seq<PluginView>, name: Seq<char>) -> bool {
    exists|i: int| 0 <= i < s.len() && same_name(#[trigger] s[i].name, name) && s[i].active
}

/// The number of active entries whose light flag is `light`.
pub open spec fn count_active(s: Seq<PluginView>, light: bool) -> nat
    decreases s.len(),
{
    if s.len() == 0 {
        0
    } else {
        count_active(s.drop_last(), light) + if s.last().active && s.last().light == light {
            1nat
        } else {
            0nat
        }
    }
}

/// The names of the active entries, in order.
pub open spec fn active_names(s: Seq<PluginView>) -> Seq<Seq<char>>
    decreases s.len(),
{
    if s.len() == 0 {
        Seq::empty()
    } else if s.last().active {
        active_names(s.drop_last()).push(s.last().name)
    } else {
        active_names(s.drop_last())
    }
}

/// Every name of `a` is in `b`, and every name active in `a` is active in `b`.
pub open spec fn grows(a: Seq<PluginView>, b: Seq<PluginView>) -> bool {
    (forall|n: Seq<char>| has_name(a, n) ==> #[trigger] has_name(b, n)) && (forall|n: Seq<char>|
        is_active_in(a, n) ==> #[trigger] is_active_in(b, n))
}

pub proof fn lemma_grows_trans(a: Seq<PluginView>, b: Seq<PluginView>, c: Seq<PluginView>)
    requires
        grows(a, b),
        grows(b, c),
    ensures
        grows(a, c),
{
}

pub proof fn lemma_insert_grows(s: Seq<PluginView>, i: int, v: PluginView)
    requires
        0 <= i <= s.len(),
    ensures
        grows(s, s.insert(i, v)),
        has_name(s.insert(i, v), v.name),
        v.active ==> is_active_in(s.insert(i, v), v.name),
{
    let t = s.insert(i, v);
    assert forall|n: Seq<char>| has_name(s, n) implies #[trigger] has_name(t, n) by {
        let k = choose|k: int| 0 <= k < s.len() && same_name(#[trigger] s[k].name, n);
        let k1 = if k < i { k } else { k + 1 };
        assert(t[k1] == s[k]);
    }
    assert forall|n: Seq<char>| is_active_in(s, n) implies #[trigger] is_active_in(t, n) by {
        let k = choose|k: int| 0 <= k < s.len() && same_name(#[trigger] s[k].name, n) && s[k].active;
        let k1 = if k < i { k } else { k + 1 };
        assert(t[k1] == s[k]);
    }
    assert(t[i] == v);
}

pub proof fn lemma_activate_grows(s: Seq<PluginView>, i: int)
    requires
        0 <= i < s.len(),
    ensures
        grows(s, s.update(i, PluginView { active: true, ..s[i] })),
        is_active_in(s.update(i, PluginView { active: true, ..s[i] }), s[i].name),
{
    let t = s.update(i, PluginView { active: true, ..s[i] });
    assert forall|n: Seq<char>| has_name(s, n) implies #[trigger] has_name(t, n) by {
        let k = choose|k: int| 0 <= k < s.len() && same_name(#[trigger] s[k].name, n);
        assert(t[k].name == s[k].name);
    }
    assert forall|n: Seq<char>| is_active_in(s, n) implies #[trigger] is_active_in(t, n) by {
        let k = choose|k: int| 0 <= k < s.len() && same_name(#[trigger] s[k].name, n) && s[k].active;
        assert(t[k].name == s[k].name && t[k].active);
    }
    assert(t[i].name == s[i].name && t[i].active);
}

/// The names that a list of strings holds.
pub open spec fn name_views(names: Seq<&str>) -> Seq<Seq<char>> {
    names.map_values(|n: &str| n@)
}

/// Two names of the list denote the same file.
pub open spec fn has_duplicates(ns: Seq<Seq<char>>) -> bool {
    exists|i: int, j: int| 0 <= i < j < ns.len() && same_name(#[trigger] ns[i], #[trigger] ns[j])
}

/// The entry that a name stands for: the listed entry if there is one,
/// else a fresh inactive entry for the plugin file.
pub open spec fn resolved(e: Seq<PluginView>, f: Seq<PluginView>, n: Seq<char>) -> PluginView {
    if has_name(e, n) {
        e[choose|i: int| is_first_named(e, n, i)]
    } else {
        PluginView { active: false, ..f[choose|k: int| is_first_named(f, n, k)] }
    }
}

/// A name that some entry has is the name of a first such entry.
pub proof fn lemma_first_named_exists(s: Seq<PluginView>, n: Seq<char>)
    requires
        has_name(s, n),
    ensures
        exists|i: int| is_first_named(s, n, i),
    decreases s.len(),
{
    let t = s.drop_last();
    if has_name(t, n) {
        lemma_first_named_exists(t, n);
        let i = choose|i: int| is_first_named(t, n, i);
        assert(forall|j: int| 0 <= j < s.len() - 1 ==> t[j] == s[j]);
        assert forall|j: int| 0 <= j < i implies !same_name(#[trigger] s[j].name, n) by {
            assert(t[j] == s[j]);
        }
        assert(is_first_named(s, n, i));
    } else {
        let k = choose|k: int| 0 <= k < s.len() && same_name(#[trigger] s[k].name, n);
        if k < s.len() - 1 {
            assert(same_name(t[k].name, n));
        }
        assert(forall|j: int| 0 <= j < s.len() - 1 ==> t[j] == s[j]);
        assert(is_first_named(s, n, s.len() - 1));
    }
}

/// The first entry of a name is the one that `choose` picks.
pub proof fn lemma_choose_first(s: Seq<PluginView>, n: Seq<char>, i: int)
    requires
        is_first_named(s, n, i),
    ensures
        (choose|j: int| is_first_named(s, n, j)) == i,
{
    let c = choose|j: int| is_first_named(s, n, j);
    assert(is_first_named(s, n, c));
    if c < i {
        assert(!same_name(s[c].name, n));
    } else if c > i {
        assert(!same_name(s[i].name, n));
    }
}

/// Names that denote the same file stand for the same entry.
pub proof fn lemma_resolved_same_name(e: Seq<PluginView>, f: Seq<PluginView>, a: Seq<char>, b: Seq<char>)
    requires
        same_name(a, b),
        has_name(e, a) || has_name(f, a),
    ensures
        resolved(e, f, a) == resolved(e, f, b),
{
    if has_name(e, a) {
        lemma_first_named_exists(e, a);
        let i = choose|i: int| is_first_named(e, a, i);
        assert(is_first_named(e, b, i));
        lemma_choose_first(e, a, i);
        lemma_choose_first(e, b, i);
    } else {
        assert(!has_name(e, b));
        lemma_first_named_exists(f, a);
        let i = choose|i: int| is_first_named(f, a, i);
        assert(is_first_named(f, b, i));
        lemma_choose_first(f, a, i);
        lemma_choose_first(f, b, i);
    }
}

/// With no active entry, both counts are zero.
pub proof fn lemma_count_active_none(s: Seq<PluginView>, light: bool)
    requires
        forall|c: int| 0 <= c < s.len() ==> !(#[trigger] s[c]).active,
    ensures
        count_active(s, light) == 0,
    decreases s.len(),
{
    if s.len() > 0 {
        lemma_count_active_none(s.drop_last(), light);
    }
}

/// The entries that a list of names stands for.
pub open spec fn resolved_all(e: Seq<PluginView>, f: Seq<PluginView>, ns: Seq<Seq<char>>) -> Seq<PluginView> {
    ns.map_values(|n: Seq<char>| resolved(e, f, n))
}

/// The position of the first plugin of the given name.
pub fn position_of_name(plugins: &Vec<Plugin>, name: &str) -> (r: Option<usize>)
    ensures
        match r {
            Some(i) => is_first_named(views(plugins@), name@, i as int),
            None => !has_name(views(plugins@), name@),
        },
{
    let ghost s = views(plugins@);
    let mut i: usize = 0;
    while i < plugins.len()
        invariant
            0 <= i <= s.len(),
            s == views(plugins@),
            forall|j: int| 0 <= j < i ==> !same_name(#[trigger] s[j].name, name@),
        decreases s.len() - i,
    {
        if plugins[i].name_matches(name) {
            return Some(i);
        }
        i += 1;
    }
    None
}

/// Checks that the names are free of duplicates and that each names a
/// valid plugin file.
pub fn validate_plugin_names(names: &[&str], plugin_files: &Vec<Plugin>) -> (r: Result<(), crate::enums::Error>)
    ensures
        r matches Err(crate::enums::Error::DuplicatePlugin) <==> has_duplicates(name_views(names@)),
        r is Ok <==> !has_duplicates(name_views(names@)) && forall|i: int|
            0 <= i < names@.len() ==> has_name(views(plugin_files@), #[trigger] names@[i]@),
        r matches Err(e) ==> e == crate::enums::Error::DuplicatePlugin || exists|i: int|
            0 <= i < names@.len() && !has_name(views(plugin_files@), #[trigger] names@[i]@)
                && (e matches crate::enums::Error::InvalidPlugin(n) && n@ == names@[i]@) && forall|j: int|
                0 <= j < i ==> has_name(views(plugin_files@), #[trigger] names@[j]@),
{
    let ghost ns = name_views(names@);
    let mut i: usize = 0;
    while i < names.len()
        invariant
            0 <= i <= names@.len(),
            ns == name_views(names@),
            forall|a: int, b: int| 0 <= a < b < i ==> !same_name(#[trigger] ns[a], #[trigger] ns[b]),
        decreases names@.len() - i,
    {
        let mut j: usize = 0;
        while j < i
            invariant
                0 <= j <= i < names@.len(),
                ns == name_views(names@),
                forall|a: int| 0 <= a < j ==> !same_name(#[trigger] ns[a], ns[i as int]),
            decreases i - j,
        {
            if crate::names::names_match(names[j], names[i]) {
                assert(same_name(ns[j as int], ns[i as int]));
                return Err(crate::enums::Error::DuplicatePlugin);
            }
            j += 1;
        }
        i += 1;
    }
    assert(!has_duplicates(ns));
    let mut k: usize = 0;
    while k < names.len()
        invariant
            0 <= k <= names@.len(),
            ns == name_views(names@),
            !has_duplicates(ns),
            forall|a: int| 0 <= a < k ==> has_name(views(plugin_files@), #[trigger] names@[a]@),
        decreases names@.len() - k,
    {
        if position_of_name(plugin_files, names[k]).is_none() {
            return Err(crate::enums::Error::InvalidPlugin(names[k].to_string()));
        }
        k += 1;
    }
    Ok(())
}

/// The cap on active entries of the given kind.
pub open spec fn cap(light: bool) -> nat {
    if light {
        MAX_ACTIVE_LIGHT_MASTERS as nat
    } else {
        MAX_ACTIVE_NORMAL_PLUGINS as nat
    }
}

/// The number of entries whose light flag is `light`, active or not.
pub open spec fn count_kind(s: Seq<PluginView>, light: bool) -> nat
    decreases s.len(),
{
    if s.len() == 0 {
        0
    } else {
        count_kind(s.drop_last(), light) + if s.last().light == light {
            1nat
        } else {
            0nat
        }
    }
}

/// An entry with the given active flag.
pub open spec fn set_active_view(v: PluginView, active: bool) -> PluginView {
    PluginView { active, ..v }
}

/// Every active entry of `b` was active in `a` or is named `n`.
pub open spec fn activates_only(a: Seq<PluginView>, b: Seq<PluginView>, n: Seq<char>) -> bool {
    forall|c: int|
        0 <= c < b.len() && (#[trigger] b[c]).active ==> is_active_in(a, b[c].name) || same_name(b[c].name, n)
}

/// An entry named `a` comes before an entry named `b`.
pub open spec fn precedes(s: Seq<PluginView>, a: Seq<char>, b: Seq<char>) -> bool {
    exists|i: int, j: int|
        0 <= i < j < s.len() && same_name(#[trigger] s[i].name, a) && same_name(#[trigger] s[j].name, b)
}

/// Every order between names of `a` holds in `b` too.
pub open spec fn keeps_order(a: Seq<PluginView>, b: Seq<PluginView>) -> bool {
    forall|x: Seq<char>, y: Seq<char>| precedes(a, x, y) ==> #[trigger] precedes(b, x, y)
}

pub proof fn lemma_keeps_order_trans(a: Seq<PluginView>, b: Seq<PluginView>, c: Seq<PluginView>)
    requires
        keeps_order(a, b),
        keeps_order(b, c),
    ensures
        keeps_order(a, c),
{
}

pub proof fn lemma_insert_keeps_order(s: Seq<PluginView>, k: int, v: PluginView)
    requires
        0 <= k <= s.len(),
    ensures
        keeps_order(s, s.insert(k, v)),
{
    let t = s.insert(k, v);
    assert forall|x: Seq<char>, y: Seq<char>| precedes(s, x, y) implies #[trigger] precedes(t, x, y) by {
        let (i, j) = choose|i: int, j: int|
            0 <= i < j < s.len() && same_name(#[trigger] s[i].name, x) && same_name(#[trigger] s[j].name, y);
        let i1 = if i < k { i } else { i + 1 };
        let j1 = if j < k { j } else { j + 1 };
        assert(t[i1] == s[i] && t[j1] == s[j]);
    }
}

pub proof fn lemma_same_names_keep_order(s: Seq<PluginView>, t: Seq<PluginView>)
    requires
        s.len() == t.len(),
        forall|i: int| 0 <= i < s.len() ==> (#[trigger] t[i]).name == s[i].name,
    ensures
        keeps_order(s, t),
{
    assert forall|x: Seq<char>, y: Seq<char>| precedes(s, x, y) implies #[trigger] precedes(t, x, y) by {
        let (i, j) = choose|i: int, j: int|
            0 <= i < j < s.len() && same_name(#[trigger] s[i].name, x) && same_name(#[trigger] s[j].name, y);
        assert(t[i].name == s[i].name && t[j].name == s[j].name);
    }
}

/// Every entry of `b` names an entry of `a` or a plugin file of `f`.
pub open spec fn comes_from(a: Seq<PluginView>, b: Seq<PluginView>, f: Seq<PluginView>) -> bool {
    forall|c: int| 0 <= c < b.len() ==> has_name(a, (#[trigger] b[c]).name) || has_name(f, b[c].name)
}

pub proof fn lemma_comes_from_trans(a: Seq<PluginView>, b: Seq<PluginView>, c: Seq<PluginView>, f: Seq<PluginView>)
    requires
        comes_from(a, b, f),
        comes_from(b, c, f),
    ensures
        comes_from(a, c, f),
{
    assert forall|k: int| 0 <= k < c.len() implies has_name(a, (#[trigger] c[k]).name) || has_name(f, c[k].name) by {
        if has_name(b, c[k].name) {
            let q = choose|q: int| 0 <= q < b.len() && same_name(#[trigger] b[q].name, c[k].name);
            assert(has_name(a, b[q].name) || has_name(f, b[q].name));
            if has_name(a, b[q].name) {
                let x = choose|x: int| 0 <= x < a.len() && same_name(#[trigger] a[x].name, b[q].name);
                assert(same_name(a[x].name, c[k].name));
            } else {
                let x = choose|x: int| 0 <= x < f.len() && same_name(#[trigger] f[x].name, b[q].name);
                assert(same_name(f[x].name, c[k].name));
            }
        }
    }
}

/// Inserting a plugin file's entry, or changing flags only, keeps entries
/// coming from the old ones and the files.
pub proof fn lemma_insert_comes_from(s: Seq<PluginView>, i: int, v: PluginView, f: Seq<PluginView>)
    requires
        0 <= i <= s.len(),
        has_name(f, v.name),
    ensures
        comes_from(s, s.insert(i, v), f),
{
    let t = s.insert(i, v);
    assert forall|k: int| 0 <= k < t.len() implies has_name(s, (#[trigger] t[k]).name) || has_name(f, t[k].name) by {
        if k < i {
            assert(t[k] == s[k]);
        } else if k > i {
            assert(t[k] == s[k - 1]);
        }
    }
}

pub proof fn lemma_same_names_come_from(s: Seq<PluginView>, t: Seq<PluginView>, f: Seq<PluginView>)
    requires
        s.len() == t.len(),
        forall|i: int| 0 <= i < s.len() ==> (#[trigger] t[i]).name == s[i].name,
    ensures
        comes_from(s, t, f),
{
    assert forall|k: int| 0 <= k < t.len() implies has_name(s, (#[trigger] t[k]).name) || has_name(f, t[k].name) by {
        assert(t[k].name == s[k].name);
    }
}

/// Inserting keeps every entry, and every entry of the result is an old one
/// or the new one.
pub proof fn lemma_insert_contains(s: Seq<PluginView>, i: int, v: PluginView)
    requires
        0 <= i <= s.len(),
    ensures
        forall|o: int| 0 <= o < s.len() ==> s.insert(i, v).contains(#[trigger] s[o]),
        forall|c: int| 0 <= c < s.len() + 1 ==> s.contains(#[trigger] s.insert(i, v)[c]) || s.insert(i, v)[c] == v,
{
    let t = s.insert(i, v);
    assert forall|o: int| 0 <= o < s.len() implies t.contains(#[trigger] s[o]) by {
        let o1 = if o < i { o } else { o + 1 };
        assert(t[o1] == s[o]);
    }
    assert forall|c: int| 0 <= c < s.len() + 1 implies s.contains(#[trigger] t[c]) || t[c] == v by {
        if c < i {
            assert(t[c] == s[c]);
        } else if c > i {
            assert(t[c] == s[c - 1]);
        }
    }
}

/// `b` is `a` with `b[j]` inserted at `j`, where an entry of its kind goes:
/// before the first non-master for a master, at the end otherwise.
pub open spec fn added_at(a: Seq<PluginView>, b: Seq<PluginView>, j: int) -> bool {
    0 <= j <= a.len() && b.len() == a.len() + 1 && b == a.insert(j, b[j]) && (b[j].master ==> (j == a.len()
        || !a[j].master) && forall|q: int| 0 <= q < j ==> (#[trigger] a[q]).master) && (!b[j].master ==> j == a.len())
}

/// The position of the first non-master entry, or the length if there is
/// none.
pub open spec fn first_non_master_index(s: Seq<PluginView>) -> int
    decreases s.len(),
{
    if s.len() == 0 || !s[0].master {
        0
    } else {
        1 + first_non_master_index(s.subrange(1, s.len() as int))
    }
}

/// Where a new entry `v` goes: before the first non-master for a master,
/// at the end otherwise.
pub open spec fn insert_index(s: Seq<PluginView>, v: PluginView) -> int {
    if v.master {
        first_non_master_index(s)
    } else {
        s.len() as int
    }
}

pub proof fn lemma_first_non_master_index(s: Seq<PluginView>, r: Option<usize>)
    requires
        first_non_master(s, r),
    ensures
        first_non_master_index(s) == match r {
            Some(i) => i as int,
            None => s.len() as int,
        },
    decreases s.len(),
{
    if s.len() > 0 && s[0].master {
        let t = s.subrange(1, s.len() as int);
        match r {
            Some(i) => {
                let r2: Option<usize> = Some((i - 1) as usize);
                assert forall|j: int| 0 <= j < i - 1 implies (#[trigger] t[j]).master by {
                    assert(t[j] == s[j + 1]);
                }
                assert(t[i - 1] == s[i as int]);
                lemma_first_non_master_index(t, r2);
            },
            None => {
                assert forall|j: int| 0 <= j < t.len() implies (#[trigger] t[j]).master by {
                    assert(t[j] == s[j + 1]);
                }
                lemma_first_non_master_index(t, None);
            },
        }
    }
}

/// The entries after the named plugin is made active: the first entry of
/// that name if there is one, else the plugin file's entry, active, put
/// where its kind goes.
pub open spec fn activation_step(s: Seq<PluginView>, f: Seq<PluginView>, n: Seq<char>) -> Seq<PluginView> {
    if has_name(s, n) {
        let i = choose|i: int| is_first_named(s, n, i);
        s.update(i, PluginView { active: true, ..s[i] })
    } else {
        let v = PluginView { active: true, ..f[choose|k: int| is_first_named(f, n, k)] };
        s.insert(insert_index(s, v), v)
    }
}

/// The entries after each name of `ns` is made active in turn.
pub open spec fn activate_in_turn(s: Seq<PluginView>, f: Seq<PluginView>, ns: Seq<Seq<char>>) -> Seq<PluginView>
    decreases ns.len(),
{
    if ns.len() == 0 {
        s
    } else {
        activation_step(activate_in_turn(s, f, ns.drop_last()), f, ns.last())
    }
}

/// The entries, all inactive.
pub open spec fn deactivated(s: Seq<PluginView>) -> Seq<PluginView> {
    s.map_values(|v: PluginView| PluginView { active: false, ..v })
}

pub proof fn lemma_activation_step_present(s: Seq<PluginView>, f: Seq<PluginView>, n: Seq<char>, x: int)
    requires
        is_first_named(s, n, x),
    ensures
        activation_step(s, f, n) == s.update(x, PluginView { active: true, ..s[x] }),
{
    lemma_choose_first(s, n, x);
}

pub proof fn lemma_activation_step_absent(s: Seq<PluginView>, f: Seq<PluginView>, n: Seq<char>, k: int)
    requires
        !has_name(s, n),
        is_first_named(f, n, k),
    ensures
        activation_step(s, f, n) == s.insert(
            insert_index(s, PluginView { active: true, ..f[k] }),
            PluginView { active: true, ..f[k] },
        ),
{
    lemma_choose_first(f, n, k);
}

pub proof fn lemma_activate_in_turn_next(s: Seq<PluginView>, f: Seq<PluginView>, ns: Seq<Seq<char>>, i: int)
    requires
        0 <= i < ns.len(),
    ensures
        activate_in_turn(s, f, ns.subrange(0, i + 1)) == activation_step(activate_in_turn(s, f, ns.subrange(0, i)), f, ns[i]),
{
    assert(ns.subrange(0, i + 1).drop_last() =~= ns.subrange(0, i));
}

/// The entries after the named plugin file is added, where its kind goes,
/// unless it is implicitly active or already listed.
pub open spec fn missing_step(s: Seq<PluginView>, f: Seq<PluginView>, imps: Seq<String>, n: Seq<char>) -> Seq<PluginView> {
    if !is_implicit(imps, n) && !has_name(s, n) {
        let v = PluginView { active: false, ..f[choose|k: int| is_first_named(f, n, k)] };
        s.insert(insert_index(s, v), v)
    } else {
        s
    }
}

/// The entries after each plugin file named in `ns` is added in turn.
pub open spec fn add_missing_in_turn(s: Seq<PluginView>, f: Seq<PluginView>, imps: Seq<String>, ns: Seq<Seq<char>>) -> Seq<PluginView>
    decreases ns.len(),
{
    if ns.len() == 0 {
        s
    } else {
        missing_step(add_missing_in_turn(s, f, imps, ns.drop_last()), f, imps, ns.last())
    }
}

/// The names of the entries.
pub open spec fn entry_names(s: Seq<PluginView>) -> Seq<Seq<char>> {
    s.map_values(|v: PluginView| v.name)
}

/// The names of a list of strings.
pub open spec fn string_names(s: Seq<String>) -> Seq<Seq<char>> {
    s.map_values(|x: String| x@)
}

/// The entries after the named implicitly active plugin is made active,
/// if it is not already active and is listed or a plugin file.
pub open spec fn implicit_step(s: Seq<PluginView>, f: Seq<PluginView>, n: Seq<char>) -> Seq<PluginView> {
    if !is_active_in(s, n) && (has_name(s, n) || has_name(f, n)) {
        activation_step(s, f, n)
    } else {
        s
    }
}

/// The entries after each name of `ns` is handled by `implicit_step` in turn.
pub open spec fn implicits_in_turn(s: Seq<PluginView>, f: Seq<PluginView>, ns: Seq<Seq<char>>) -> Seq<PluginView>
    decreases ns.len(),
{
    if ns.len() == 0 {
        s
    } else {
        implicit_step(implicits_in_turn(s, f, ns.drop_last()), f, ns.last())
    }
}

/// The entries after each listed name that stands for an entry or a plugin
/// file is made active in turn.
pub open spec fn listed_in_turn(s: Seq<PluginView>, f: Seq<PluginView>, ns: Seq<Seq<char>>) -> Seq<PluginView>
    decreases ns.len(),
{
    if ns.len() == 0 {
        s
    } else {
        let p = listed_in_turn(s, f, ns.drop_last());
        if has_name(p, ns.last()) || has_name(f, ns.last()) {
            activation_step(p, f, ns.last())
        } else {
            p
        }
    }
}

/// Both active caps hold.
pub open spec fn within_caps(s: Seq<PluginView>) -> bool {
    count_active(s, false) <= MAX_ACTIVE_NORMAL_PLUGINS && count_active(s, true)
        <= MAX_ACTIVE_LIGHT_MASTERS
}

/// Where the first non-master entry stands, if there is one.
pub open spec fn first_non_master(s: Seq<PluginView>, r: Option<usize>) -> bool {
    match r {
        Some(i) => i < s.len() && !s[i as int].master && forall|j: int|
            0 <= j < i ==> (#[trigger] s[j]).master,
        None => forall|j: int| 0 <= j < s.len() ==> (#[trigger] s[j]).master,
    }
}

/// Whether placing an entry of the given kind at `index` keeps masters first.
pub open spec fn index_allowed(s: Seq<PluginView>, index: int, is_master: bool) -> bool {
    if forall|j: int| 0 <= j < s.len() ==> (#[trigger] s[j]).master {
        is_master || index >= s.len()
    } else {
        forall|i: int|
            #![trigger s[i]]
            0 <= i < s.len() && !s[i].master && (forall|j: int| 0 <= j < i ==> (#[trigger] s[j]).master)
                ==> (if is_master { index <= i } else { index >= i })
    }
}

/// The count over a sequence is the count over its first part plus the count
/// over the rest.
pub proof fn lemma_count_active_split(s: Seq<PluginView>, n: int, light: bool)
    requires
        0 <= n <= s.len(),
    ensures
        count_active(s, light) == count_active(s.subrange(0, n), light) + count_active(
            s.subrange(n, s.len() as int),
            light,
        ),
    decreases s.len() - n,
{
    if n < s.len() {
        lemma_count_active_split(s, n + 1, light);
        let t = s.subrange(n, s.len() as int);
        assert(s.subrange(0, n + 1).drop_last() =~= s.subrange(0, n));
        lemma_count_active_front(t, light);
        assert(t.subrange(1, t.len() as int) =~= s.subrange(n + 1, s.len() as int));
    } else {
        assert(s.subrange(0, n) =~= s);
        assert(s.subrange(n, s.len() as int) =~= Seq::<PluginView>::empty());
    }
}

/// Counting from the front.
pub proof fn lemma_count_active_front(s: Seq<PluginView>, light: bool)
    requires
        s.len() > 0,
    ensures
        count_active(s, light) == count_active(s.subrange(1, s.len() as int), light) + if s[0].active
            && s[0].light == light {
            1nat
        } else {
            0nat
        },
    decreases s.len(),
{
    if s.len() > 1 {
        lemma_count_active_front(s.drop_last(), light);
        assert(s.drop_last().subrange(1, s.len() - 1) =~= s.subrange(1, s.len() as int).drop_last());
    } else {
        assert(s.subrange(1, s.len() as int) =~= Seq::<PluginView>::empty());
        assert(s.drop_last() =~= Seq::<PluginView>::empty());
    }
}

/// Changing one entry changes the counts by what that entry contributed.
pub proof fn lemma_count_active_update(s: Seq<PluginView>, i: int, v: PluginView, light: bool)
    requires
        0 <= i < s.len(),
    ensures
        count_active(s.update(i, v), light) + (if s[i].active && s[i].light == light {
            1int
        } else {
            0int
        }) == count_active(s, light) + (if v.active && v.light == light {
            1int
        } else {
            0int
        }),
{
    let t = s.update(i, v);
    lemma_count_active_split(s, i, light);
    lemma_count_active_split(t, i, light);
    assert(t.subrange(0, i) =~= s.subrange(0, i));
    lemma_count_active_front(s.subrange(i, s.len() as int), light);
    lemma_count_active_front(t.subrange(i, t.len() as int), light);
    assert(t.subrange(i, t.len() as int).subrange(1, t.len() - i) =~= s.subrange(
        i,
        s.len() as int,
    ).subrange(1, s.len() - i));
}

/// Inserting an entry adds what it contributes to the counts.
pub proof fn lemma_count_active_insert(s: Seq<PluginView>, i: int, v: PluginView, light: bool)
    requires
        0 <= i <= s.len(),
    ensures
        count_active(s.insert(i, v), light) == count_active(s, light) + (if v.active && v.light
            == light {
            1int
        } else {
            0int
        }),
{
    let t = s.insert(i, v);
    lemma_count_active_split(s, i, light);
    lemma_count_active_split(t, i, light);
    assert(t.subrange(0, i) =~= s.subrange(0, i));
    lemma_count_active_front(t.subrange(i, t.len() as int), light);
    assert(t.subrange(i, t.len() as int).subrange(1, t.len() - i) =~= s.subrange(
        i,
        s.len() as int,
    ));
}

/// The position of the first non-master entry.
pub fn find_first_non_master_position(plugins: &Vec<Plugin>) -> (r: Option<usize>)
    ensures
        first_non_master(views(plugins@), r),
{
    let mut i: usize = 0;
    while i < plugins.len()
        invariant
            0 <= i <= plugins@.len(),
            forall|j: int| 0 <= j < i ==> (#[trigger] views(plugins@)[j]).master,
        decreases plugins@.len() - i,
    {
        if !plugins[i].is_master_file() {
            return Some(i);
        }
        i += 1;
    }
    None
}

/// Whether every master entry comes before every non-master entry.
pub fn is_partitioned_by_master_flag(plugins: &Vec<Plugin>) -> (r: bool)
    ensures
        r == partitioned(views(plugins@)),
{
    let ghost s = views(plugins@);
    let ghost mut nm: int = 0;
    let mut seen_non_master = false;
    let mut i: usize = 0;
    while i < plugins.len()
        invariant
            0 <= i <= s.len(),
            s == views(plugins@),
            partitioned(s.subrange(0, i as int)),
            seen_non_master ==> 0 <= nm < i && !s[nm].master,
            !seen_non_master ==> forall|j: int| 0 <= j < i ==> (#[trigger] s[j]).master,
        decreases s.len() - i,
    {
        let m = plugins[i].is_master_file();
        assert(s[i as int] == plugins@[i as int]@);
        if m && seen_non_master {
            assert(s[i as int].master && !s[nm].master && nm < i);
            return false;
        }
        if !m {
            if !seen_non_master {
                proof { nm = i as int; }
            }
            seen_non_master = true;
        }
        i += 1;
        assert forall|a: int, b: int|
            0 <= a < b < i && (#[trigger] s.subrange(0, i as int)[b]).master implies (#[trigger] s.subrange(0, i as int)[a]).master by {
            if b < i - 1 {
                assert(s.subrange(0, i - 1)[b] == s[b]);
                assert(s.subrange(0, i - 1)[a] == s[a]);
            }
        }
    }
    assert(s.subrange(0, i as int) =~= s);
    true
}

/// Whether placing an entry of the given kind at `index` keeps masters first.
pub fn validate_index(plugins: &Vec<Plugin>, index: usize, is_master: bool) -> (r: Result<(), crate::enums::Error>)
    ensures
        r is Ok <==> index_allowed(views(plugins@), index as int, is_master),
        r matches Err(e) ==> e == crate::enums::Error::NonMasterBeforeMaster,
{
    match find_first_non_master_position(plugins) {
        None => {
            if !is_master && index < plugins.len() {
                Err(crate::enums::Error::NonMasterBeforeMaster)
            } else {
                Ok(())
            }
        },
        Some(i) => {
            let ghost s = views(plugins@);
            assert(!s[i as int].master);
            if (is_master && index > i) || (!is_master && index < i) {
                Err(crate::enums::Error::NonMasterBeforeMaster)
            } else {
                assert forall|k: int|
                    #![trigger s[k]]
                    0 <= k < s.len() && !s[k].master && (forall|j: int| 0 <= j < k ==> (#[trigger] s[j]).master)
                        implies (if is_master { index <= k } else { index >= k }) by {
                    if k < i {
                    } else if k > i {
                        assert(s[i as int].master);
                    }
                }
                Ok(())
            }
        },
    }
}

} // verus!
