use vstd::prelude::*;

use crate::load_order::{
    find_first_non_master_position, first_non_master, has_name, is_active_in, partitioned,
    unique_names, views,
};
use crate::codec::{cp1252_decoded, cp1252_encoded};
use crate::enums::{Error, GameId};
use crate::load_order::{active_names, grows, within_caps, MAX_ACTIVE_LIGHT_MASTERS, MAX_ACTIVE_NORMAL_PLUGINS};
use crate::names::same_name;
use crate::plugins_file::{
    active_plugins_file_content, entry_lines, file_lines, file_prelude, lines_of, listed_values,
    prelude_of, read_plugin_names,
};
use crate::settings::is_implicit;
use crate::plugin::{Plugin, PluginView};
use crate::settings::GameSettings;

verus! {

/// The load order of a game that orders plugins by their files' modification
/// times and lists active plugins in a text file.
pub struct TimestampBasedLoadOrder {
    pub game_settings: GameSettings,
    /// The entries, in load order.
    pub plugins: Vec<Plugin>,
    /// The valid plugin files found in the plugins directory, as last
    /// scanned; all inactive.
    pub plugin_files: Vec<Plugin>,
}

/// Entry `a` sorts no later than entry `b`: masters first, then by
/// modification time.
pub open spec fn sorts_before_or_with(a: PluginView, b: PluginView) -> bool {
    (a.master && !b.master) || (a.master == b.master && a.mtime <= b.mtime)
}

/// The entries are in load order by kind and modification time.
pub open spec fn sorted_by_time(s: Seq<PluginView>) -> bool {
    forall|i: int, j: int| 0 <= i < j < s.len() ==> sorts_before_or_with(#[trigger] s[i], #[trigger] s[j])
}

/// `t` holds the entries of `s`, each once.
pub open spec fn same_entries(s: Seq<PluginView>, t: Seq<PluginView>) -> bool {
    s.len() == t.len() && (forall|i: int| 0 <= i < s.len() ==> #[trigger] t.contains(s[i]))
        && (forall|j: int| 0 <= j < t.len() ==> #[trigger] s.contains(t[j]))
}

proof fn lemma_sorted_insert(s: Seq<PluginView>, i: int, old_r: Seq<PluginView>, k: int)
    requires
        0 <= i < s.len(),
        0 <= k <= old_r.len(),
        sorted_by_time(old_r),
        unique_names(old_r),
        forall|j: int| 0 <= j < k ==> sorts_before_or_with(#[trigger] old_r[j], s[i]),
        k < old_r.len() ==> !sorts_before_or_with(old_r[k], s[i]),
        forall|j: int| 0 <= j < old_r.len() ==> !same_name(#[trigger] old_r[j].name, s[i].name),
    ensures
        sorted_by_time(old_r.insert(k, s[i])),
        unique_names(old_r.insert(k, s[i])),
{
    let v = s[i];
    let nr = old_r.insert(k, v);
    assert forall|a: int, b: int| 0 <= a < b < nr.len() implies sorts_before_or_with(#[trigger] nr[a], #[trigger] nr[b]) by {
        if b == k {
        } else if a == k {
            assert(sorts_before_or_with(old_r[k], old_r[b - 1]) || b - 1 == k);
        } else {
            let a1 = if a < k { a } else { a - 1 };
            let b1 = if b < k { b } else { b - 1 };
            assert(nr[a] == old_r[a1] && nr[b] == old_r[b1]);
        }
    }
    assert forall|a: int, b: int|
        0 <= a < nr.len() && 0 <= b < nr.len() && a != b implies !same_name(#[trigger] nr[a].name, #[trigger] nr[b].name) by {
        let a1 = if a < k { a } else { a - 1 };
        let b1 = if b < k { b } else { b - 1 };
        if a != k && b != k {
            assert(nr[a] == old_r[a1] && nr[b] == old_r[b1]);
        } else if a == k {
            assert(nr[b] == old_r[b1]);
        } else {
            assert(nr[a] == old_r[a1]);
        }
    }
}

/// No two entries share a modification time.
pub open spec fn distinct_times(s: Seq<PluginView>) -> bool {
    forall|i: int, j: int| 0 <= i < s.len() && 0 <= j < s.len() && i != j ==> (#[trigger] s[i]).mtime != (#[trigger] s[j]).mtime
}

/// Entries whose modification times differ have one order by kind and
/// time: two such orders of the same entries are equal.
pub proof fn lemma_time_order_unique(s: Seq<PluginView>, t: Seq<PluginView>)
    requires
        unique_names(s),
        unique_names(t),
        same_entries(s, t),
        sorted_by_time(s),
        sorted_by_time(t),
        distinct_times(s),
    ensures
        s == t,
    decreases s.len(),
{
    if s.len() > 0 {
        assert(t.contains(s[0]));
        let j = choose|j: int| 0 <= j < t.len() && t[j] == s[0];
        assert(s.contains(t[0]));
        let k = choose|k: int| 0 <= k < s.len() && s[k] == t[0];
        if k != 0 {
            assert(sorts_before_or_with(s[0], s[k]));
            assert(s[0].mtime != s[k].mtime);
            if j != 0 {
                assert(sorts_before_or_with(t[0], t[j]));
            }
        }
        assert(s[0] == t[0]);
        let s1 = s.subrange(1, s.len() as int);
        let t1 = t.subrange(1, t.len() as int);
        assert forall|i: int| 0 <= i < s1.len() implies #[trigger] t1.contains(s1[i]) by {
            assert(s1[i] == s[i + 1]);
            assert(t.contains(s[i + 1]));
            let q = choose|q: int| 0 <= q < t.len() && t[q] == s[i + 1];
            if q == 0 {
                assert(s[0] == s[i + 1]);
                assert(!same_name(s[0].name, s[i + 1].name));
            }
            assert(t1[q - 1] == s1[i]);
        }
        assert forall|i: int| 0 <= i < t1.len() implies #[trigger] s1.contains(t1[i]) by {
            assert(t1[i] == t[i + 1]);
            assert(s.contains(t[i + 1]));
            let q = choose|q: int| 0 <= q < s.len() && s[q] == t[i + 1];
            if q == 0 {
                assert(t[0] == t[i + 1]);
                assert(!same_name(t[0].name, t[i + 1].name));
            }
            assert(s1[q - 1] == t1[i]);
        }
        assert forall|a: int, b: int| 0 <= a < s1.len() && 0 <= b < s1.len() && a != b implies !same_name(#[trigger] s1[a].name, #[trigger] s1[b].name) by {
            assert(s1[a] == s[a + 1] && s1[b] == s[b + 1]);
        }
        assert forall|a: int, b: int| 0 <= a < t1.len() && 0 <= b < t1.len() && a != b implies !same_name(#[trigger] t1[a].name, #[trigger] t1[b].name) by {
            assert(t1[a] == t[a + 1] && t1[b] == t[b + 1]);
        }
        assert forall|a: int, b: int| 0 <= a < b < s1.len() implies sorts_before_or_with(#[trigger] s1[a], #[trigger] s1[b]) by {
            assert(s1[a] == s[a + 1] && s1[b] == s[b + 1]);
        }
        assert forall|a: int, b: int| 0 <= a < b < t1.len() implies sorts_before_or_with(#[trigger] t1[a], #[trigger] t1[b]) by {
            assert(t1[a] == t[a + 1] && t1[b] == t[b + 1]);
        }
        assert forall|a: int, b: int| 0 <= a < s1.len() && 0 <= b < s1.len() && a != b implies (#[trigger] s1[a]).mtime != (#[trigger] s1[b]).mtime by {
            assert(s1[a] == s[a + 1] && s1[b] == s[b + 1]);
        }
        lemma_time_order_unique(s1, t1);
        assert(s =~= seq![s[0]] + s1);
        assert(t =~= seq![t[0]] + t1);
    }
}

/// Two stable sorts by kind and time of the same entries with unique names
/// are equal.
pub proof fn lemma_stable_sort_unique(p: Seq<PluginView>, s: Seq<PluginView>, t: Seq<PluginView>)
    requires
        unique_names(p),
        unique_names(s),
        unique_names(t),
        same_entries(p, s),
        same_entries(p, t),
        sorted_by_time(s),
        sorted_by_time(t),
        stable_from(p, s),
        stable_from(p, t),
    ensures
        s == t,
    decreases s.len(),
{
    if s.len() == 0 {
        assert(s =~= t);
    } else {
        assert(p.contains(t[0]));
        let y0 = choose|y0: int| 0 <= y0 < p.len() && p[y0] == t[0];
        assert(s.contains(p[y0]));
        let k = choose|k: int| 0 <= k < s.len() && s[k] == t[0];
        assert(p.contains(s[0]));
        let x0 = choose|x0: int| 0 <= x0 < p.len() && p[x0] == s[0];
        assert(t.contains(p[x0]));
        let j = choose|j: int| 0 <= j < t.len() && t[j] == s[0];
        if k != 0 {
            assert(j != 0) by {
                if j == 0 {
                    assert(!same_name(s[0].name, s[k].name));
                }
            }
            assert(sorts_before_or_with(s[0], s[k]));
            assert(sorts_before_or_with(t[0], t[j]));
            assert(same_key(s[0], s[k]));
            assert(p.contains(s[0]));
            let x = choose|x: int| 0 <= x < p.len() && p[x] == s[0];
            assert(p.contains(s[k]));
            let y = choose|y: int| 0 <= y < p.len() && p[y] == s[k];
            assert(x != y) by {
                if x == y {
                    assert(!same_name(s[0].name, s[k].name));
                }
            }
            if x < y {
                assert(crate::load_order::precedes(t, p[x].name, p[y].name));
                let (a, b) = choose|a: int, b: int|
                    0 <= a < b < t.len() && same_name(#[trigger] t[a].name, p[x].name) && same_name(#[trigger] t[b].name, p[y].name);
                if b != 0 {
                    assert(!same_name(t[b].name, t[0].name));
                }
            } else {
                assert(same_key(p[y], p[x]));
                assert(crate::load_order::precedes(s, p[y].name, p[x].name));
                let (a, b) = choose|a: int, b: int|
                    0 <= a < b < s.len() && same_name(#[trigger] s[a].name, p[y].name) && same_name(#[trigger] s[b].name, p[x].name);
                if b != 0 {
                    assert(!same_name(s[b].name, s[0].name));
                }
            }
        }
        assert(s[0] == t[0]);
        assert(p.contains(s[0]));
        let x = choose|x: int| 0 <= x < p.len() && p[x] == s[0];
        let p1 = p.remove(x);
        let s1 = s.subrange(1, s.len() as int);
        let t1 = t.subrange(1, t.len() as int);
        lemma_tail_entries(p, s, x);
        lemma_tail_entries(p, t, x);
        lemma_stable_sort_unique(p1, s1, t1);
        assert(s =~= seq![s[0]] + s1);
        assert(t =~= seq![t[0]] + t1);
    }
}

/// Taking the first entry off a stable sort of `p` gives a stable sort of
/// `p` without that entry.
proof fn lemma_tail_entries(p: Seq<PluginView>, s: Seq<PluginView>, x: int)
    requires
        unique_names(p),
        unique_names(s),
        same_entries(p, s),
        sorted_by_time(s),
        stable_from(p, s),
        s.len() > 0,
        0 <= x < p.len(),
        p[x] == s[0],
    ensures
        unique_names(p.remove(x)),
        unique_names(s.subrange(1, s.len() as int)),
        same_entries(p.remove(x), s.subrange(1, s.len() as int)),
        sorted_by_time(s.subrange(1, s.len() as int)),
        stable_from(p.remove(x), s.subrange(1, s.len() as int)),
{
    let p1 = p.remove(x);
    let s1 = s.subrange(1, s.len() as int);
    assert forall|a: int, b: int| 0 <= a < p1.len() && 0 <= b < p1.len() && a != b implies !same_name(#[trigger] p1[a].name, #[trigger] p1[b].name) by {
        let a1 = if a < x { a } else { a + 1 };
        let b1 = if b < x { b } else { b + 1 };
        assert(p1[a] == p[a1] && p1[b] == p[b1]);
    }
    assert forall|a: int, b: int| 0 <= a < s1.len() && 0 <= b < s1.len() && a != b implies !same_name(#[trigger] s1[a].name, #[trigger] s1[b].name) by {
        assert(s1[a] == s[a + 1] && s1[b] == s[b + 1]);
    }
    assert forall|a: int, b: int| 0 <= a < b < s1.len() implies sorts_before_or_with(#[trigger] s1[a], #[trigger] s1[b]) by {
        assert(s1[a] == s[a + 1] && s1[b] == s[b + 1]);
    }
    assert forall|i: int| 0 <= i < p1.len() implies #[trigger] s1.contains(p1[i]) by {
        let i1 = if i < x { i } else { i + 1 };
        assert(p1[i] == p[i1]);
        assert(s.contains(p[i1]));
        let q = choose|q: int| 0 <= q < s.len() && s[q] == p[i1];
        if q == 0 {
            assert(!same_name(p[i1].name, p[x].name));
        }
        assert(s1[q - 1] == p1[i]);
    }
    assert forall|j: int| 0 <= j < s1.len() implies #[trigger] p1.contains(s1[j]) by {
        assert(s1[j] == s[j + 1]);
        assert(p.contains(s[j + 1]));
        let q = choose|q: int| 0 <= q < p.len() && p[q] == s[j + 1];
        if q == x {
            assert(!same_name(s[0].name, s[j + 1].name));
        }
        let q1 = if q < x { q } else { q - 1 };
        assert(p1[q1] == s1[j]);
    }
    assert forall|a: int, b: int|
        0 <= a < b < p1.len() && same_key(p1[a], p1[b]) implies crate::load_order::precedes(s1, #[trigger] p1[a].name, #[trigger] p1[b].name) by {
        let a1 = if a < x { a } else { a + 1 };
        let b1 = if b < x { b } else { b + 1 };
        assert(p1[a] == p[a1] && p1[b] == p[b1]);
        assert(crate::load_order::precedes(s, p[a1].name, p[b1].name));
        let (i, j) = choose|i: int, j: int|
            0 <= i < j < s.len() && same_name(#[trigger] s[i].name, p[a1].name) && same_name(#[trigger] s[j].name, p[b1].name);
        if i == 0 {
            assert(!same_name(p[x].name, p[a1].name));
        }
        assert(s1[i - 1] == s[i] && s1[j - 1] == s[j]);
    }
}

/// Loading the same plugin files and the same active-plugins file gives
/// the same entries: what loading makes of its inputs is determined.
pub proof fn lemma_load_result_unique(
    p: Seq<PluginView>,
    a: Seq<PluginView>,
    b: Seq<PluginView>,
    content: Option<&[u8]>,
    id: GameId,
    imps: Seq<String>,
    ma: int,
    mb: int,
)
    requires
        loaded_from(p, a, content, id, imps, ma),
        loaded_from(p, b, content, id, imps, mb),
    ensures
        a == b,
{
    let wa = with_wanted(a, content, id, imps);
    let wb = with_wanted(b, content, id, imps);
    lemma_stable_sort_unique(p, wa, wb);
    crate::mutable::lemma_excess_cut_unique(wa, a, b, imps, ma, mb);
}

/// A reordering keeps every name and every active entry.
pub proof fn lemma_same_entries_grows(s: Seq<PluginView>, t: Seq<PluginView>)
    requires
        same_entries(s, t),
    ensures
        grows(s, t),
{
    assert forall|n: Seq<char>| has_name(s, n) implies #[trigger] has_name(t, n) by {
        let i = choose|i: int| 0 <= i < s.len() && same_name(#[trigger] s[i].name, n);
        assert(t.contains(s[i]));
        let j = choose|j: int| 0 <= j < t.len() && t[j] == s[i];
        assert(same_name(t[j].name, n));
    }
    assert forall|n: Seq<char>| is_active_in(s, n) implies #[trigger] is_active_in(t, n) by {
        let i = choose|i: int| 0 <= i < s.len() && same_name(#[trigger] s[i].name, n) && s[i].active;
        assert(t.contains(s[i]));
        let j = choose|j: int| 0 <= j < t.len() && t[j] == s[i];
        assert(same_name(t[j].name, n) && t[j].active);
    }
}

/// Neither entry sorts strictly before the other.
pub open spec fn same_key(a: PluginView, b: PluginView) -> bool {
    a.master == b.master && a.mtime == b.mtime
}

/// The entries sorted masters first, then by modification time; entries
/// that compare equal keep their order.
pub fn sort_by_time(plugins: &Vec<Plugin>) -> (r: Vec<Plugin>)
    requires
        unique_names(views(plugins@)),
    ensures
        sorted_by_time(views(r@)),
        same_entries(views(plugins@), views(r@)),
        unique_names(views(r@)),
        partitioned(views(r@)),
        forall|a: int, b: int|
            0 <= a < b < plugins@.len() && same_key(views(plugins@)[a], views(plugins@)[b]) ==> crate::load_order::precedes(
                views(r@),
                #[trigger] views(plugins@)[a].name,
                #[trigger] views(plugins@)[b].name,
            ),
{
    let ghost s = views(plugins@);
    let ghost mut pos: Seq<int> = Seq::empty();
    let ghost mut src: Seq<int> = Seq::empty();
    let mut r: Vec<Plugin> = Vec::new();
    let mut i: usize = 0;
    while i < plugins.len()
        invariant
            0 <= i <= s.len(),
            s == views(plugins@),
            unique_names(s),
            r@.len() == i,
            sorted_by_time(views(r@)),
            pos.len() == i,
            src.len() == i,
            forall|q: int| 0 <= q < i ==> 0 <= #[trigger] pos[q] < i && views(r@)[pos[q]] == s[q],
            forall|j: int| 0 <= j < i ==> 0 <= #[trigger] src[j] < i && views(r@)[j] == s[src[j]],
            unique_names(views(r@)),
            forall|a: int, b: int| 0 <= a < b < i && same_key(s[a], s[b]) ==> #[trigger] pos[a] < #[trigger] pos[b],
        decreases s.len() - i,
    {
        let p = plugins[i].with_active(plugins[i].active);
        let ghost v = p@;
        assert(v == s[i as int]);
        let m = p.is_master_file();
        let t = p.modification_time();
        let mut k: usize = 0;
        while k < r.len() && (r[k].is_master_file() == m && r[k].modification_time() <= t || r[k].is_master_file() && !m)
            invariant
                0 <= k <= r@.len(),
                m == v.master,
                t == v.mtime,
                forall|j: int| 0 <= j < k ==> sorts_before_or_with(#[trigger] views(r@)[j], v),
            decreases r@.len() - k,
        {
            assert(views(r@)[k as int] == r@[k as int]@);
            k += 1;
        }
        let ghost old_r = views(r@);
        proof {
            if k < old_r.len() {
                assert(old_r[k as int] == r@[k as int]@);
                assert(!sorts_before_or_with(old_r[k as int], v));
            }
            assert forall|j: int| 0 <= j < old_r.len() implies !same_name(#[trigger] old_r[j].name, v.name) by {
                assert(old_r[j] == s[src[j]]);
                assert(!same_name(s[src[j]].name, s[i as int].name));
            }
        }
        r.insert(k, p);
        proof {
            assert(views(r@) =~= old_r.insert(k as int, v));
            lemma_sorted_insert(s, i as int, old_r, k as int);
            let nr = views(r@);
            let npos = Seq::new(i as nat + 1, |q: int| if q == i { k as int } else if pos[q] >= k { pos[q] + 1 } else { pos[q] });
            let nsrc = src.insert(k as int, i as int);
            assert forall|q: int| 0 <= q < i + 1 implies 0 <= #[trigger] npos[q] < i + 1 && nr[npos[q]] == s[q] by {
                if q < i {
                    assert(old_r[pos[q]] == s[q]);
                }
            }
            assert forall|j: int| 0 <= j < i + 1 implies 0 <= #[trigger] nsrc[j] < i + 1 && nr[j] == s[nsrc[j]] by {
                if j < k {
                    assert(nr[j] == old_r[j]);
                } else if j > k {
                    assert(nr[j] == old_r[j - 1]);
                }
            }
            assert forall|q: int| 0 <= q < i && same_key(s[q], v) implies pos[q] < k by {
                assert(old_r[pos[q]] == s[q]);
                if pos[q] >= k {
                    assert(!sorts_before_or_with(old_r[k as int], v));
                    if pos[q] > k {
                        assert(sorts_before_or_with(old_r[k as int], old_r[pos[q]]));
                    }
                }
            }
            assert forall|a: int, b: int| 0 <= a < b < i + 1 && same_key(s[a], s[b]) implies #[trigger] npos[a] < #[trigger] npos[b] by {
                if b == i {
                    assert(pos[a] < k);
                } else {
                    assert(pos[a] < pos[b]);
                }
            }
            pos = npos;
            src = nsrc;
        }
        i += 1;
    }
    proof {
        let nr = views(r@);
        assert forall|q: int| 0 <= q < s.len() implies #[trigger] nr.contains(s[q]) by {
            assert(nr[pos[q]] == s[q]);
        }
        assert forall|j: int| 0 <= j < nr.len() implies #[trigger] s.contains(nr[j]) by {
            assert(nr[j] == s[src[j]]);
        }
        assert(i == s.len());
        assert(nr.len() == r@.len());
        assert(same_entries(s, nr));
        assert forall|a: int, b: int| 0 <= a < b < s.len() && same_key(s[a], s[b]) implies crate::load_order::precedes(
            nr,
            #[trigger] s[a].name,
            #[trigger] s[b].name,
        ) by {
            assert(pos[a] < pos[b]);
            assert(nr[pos[a]] == s[a] && nr[pos[b]] == s[b]);
        }
        assert forall|a: int, b: int| 0 <= a < b < nr.len() && (#[trigger] nr[b]).master implies (#[trigger] nr[a]).master by {
            assert(sorts_before_or_with(nr[a], nr[b]));
        }
    }
    r
}

/// The active-plugins file lists the value `v` on one of its lines.
pub open spec fn listed_in(content: Option<&[u8]>, morrowind: bool, v: Seq<u8>) -> bool {
    match content {
        Some(b) => listed_values(lines_of(b@), morrowind).contains(v),
        None => false,
    }
}

/// One of the values that the active-plugins file lists decodes to a name
/// of the same file as `name`.
pub open spec fn file_lists(content: Option<&[u8]>, morrowind: bool, name: Seq<char>) -> bool {
    exists|v: Seq<u8>|
        #[trigger] listed_in(content, morrowind, v) && match cp1252_decoded(v) {
            Some(n) => same_name(n, name),
            None => false,
        }
}

/// Every value that the active-plugins file lists decodes.
pub open spec fn decodes_all(content: Option<&[u8]>, morrowind: bool) -> bool {
    match content {
        Some(b) => forall|i: int|
            0 <= i < listed_values(lines_of(b@), morrowind).len() ==> (#[trigger] cp1252_decoded(
                listed_values(lines_of(b@), morrowind)[i],
            )) is Some,
        None => true,
    }
}

/// The entry named `n` should be active after loading: the file lists it
/// or the game always loads it.
pub open spec fn wanted_active(content: Option<&[u8]>, morrowind: bool, imps: Seq<String>, n: Seq<char>) -> bool {
    file_lists(content, morrowind, n) || is_implicit(imps, n)
}

/// The entries with each active flag set to whether the entry is wanted.
pub open spec fn with_wanted(s: Seq<PluginView>, content: Option<&[u8]>, id: GameId, imps: Seq<String>) -> Seq<PluginView> {
    s.map_values(|v: PluginView| PluginView { active: wanted_active(content, id == GameId::Morrowind, imps, v.name), ..v })
}

/// The names that the active-plugins file lists, decoded.
pub open spec fn decoded_names(content: Option<&[u8]>, morrowind: bool) -> Seq<Seq<char>> {
    match content {
        Some(b) => listed_values(lines_of(b@), morrowind).map_values(|v: Seq<u8>| cp1252_decoded(v)->Some_0),
        None => Seq::empty(),
    }
}

/// The entries that loading builds before it sorts them: the plugin files
/// added in turn, the listed names activated in turn, then the implicitly
/// active plugins.
pub open spec fn loaded_before_sort(f: Seq<PluginView>, content: Option<&[u8]>, id: GameId, imps: Seq<String>) -> Seq<PluginView> {
    crate::load_order::implicits_in_turn(
        crate::load_order::listed_in_turn(
            crate::load_order::deactivated(
                crate::load_order::add_missing_in_turn(Seq::empty(), f, imps, crate::load_order::entry_names(f)),
            ),
            f,
            decoded_names(content, id == GameId::Morrowind),
        ),
        f,
        crate::load_order::string_names(imps),
    )
}

/// Entries of `p` that sort together keep their order in `s`.
pub open spec fn stable_from(p: Seq<PluginView>, s: Seq<PluginView>) -> bool {
    forall|a: int, b: int|
        0 <= a < b < p.len() && same_key(p[a], p[b]) ==> crate::load_order::precedes(s, #[trigger] p[a].name, #[trigger] p[b].name)
}

/// `x` is what loading makes of the entries `p`: `p` sorted by kind and
/// time, stably, with the wanted entries active and the excess deactivated
/// from the end, cut at `m`.
pub open spec fn loaded_from(p: Seq<PluginView>, x: Seq<PluginView>, content: Option<&[u8]>, id: GameId, imps: Seq<String>, m: int) -> bool {
    let w = with_wanted(x, content, id, imps);
    unique_names(p) && unique_names(w) && sorted_by_time(w) && same_entries(p, w) && stable_from(p, w)
        && crate::mutable::excess_cut(w, x, imps, m)
}

/// The gap between the modification times that saving adds.
pub const TIMESTAMP_STEP: i64 = 60;

/// The times are strictly increasing.
pub open spec fn strictly_increasing(ts: Seq<i64>) -> bool {
    forall|a: int, b: int| 0 <= a < b < ts.len() ==> ts[a] < ts[b]
}

/// The modification times of the entries.
pub open spec fn mtimes(s: Seq<PluginView>) -> Seq<i64> {
    s.map_values(|p: PluginView| p.mtime)
}

/// The time at `j` is a minute after the one before it and later than
/// every time of `old`.
pub open spec fn steps_up_at(old: Seq<i64>, ts: Seq<i64>, j: int) -> bool {
    j > 0 && ts[j] == ts[j - 1] + TIMESTAMP_STEP && forall|q: int| 0 <= q < old.len() ==> #[trigger] old[q] < ts[j]
}

/// The times to give `n` entries whose current times are `old`: every
/// current time once, in ascending order, then steps of a minute after the
/// latest.
pub open spec fn is_save_schedule(old: Seq<i64>, ts: Seq<i64>) -> bool {
    ts.len() == old.len() && strictly_increasing(ts) && (forall|i: int| 0 <= i < old.len() ==> #[trigger] ts.contains(old[i]))
        && forall|j: int|
        0 <= j < ts.len() ==> #[trigger] old.contains(ts[j]) || steps_up_at(old, ts, j)
}

proof fn lemma_extend_schedule(old: Seq<i64>, t0: Seq<i64>, m0: int, next: i64)
    requires
        0 <= m0 <= t0.len(),
        strictly_increasing(t0),
        forall|q: int| 0 <= q < old.len() ==> #[trigger] t0.contains(old[q]),
        forall|j: int| 0 <= j < m0 ==> #[trigger] old.contains(t0[j]),
        forall|j: int| m0 <= j < t0.len() ==> #[trigger] steps_up_at(old, t0, j),
        t0.len() < old.len(),
        t0.len() > 0 ==> next == t0.last() + TIMESTAMP_STEP,
    ensures
        strictly_increasing(t0.push(next)),
        forall|q: int| 0 <= q < old.len() ==> #[trigger] t0.push(next).contains(old[q]),
        forall|j: int| 0 <= j < m0 ==> #[trigger] old.contains(t0.push(next)[j]),
        forall|j: int| m0 <= j < t0.len() + 1 ==> #[trigger] steps_up_at(old, t0.push(next), j),
{
    let t = t0.push(next);
    assert(t0.len() > 0) by {
        assert(t0.contains(old[0]));
    }
    assert forall|q: int| 0 <= q < old.len() implies #[trigger] old[q] < next by {
        assert(t0.contains(old[q]));
        let j = choose|j: int| 0 <= j < t0.len() && t0[j] == old[q];
        if j < t0.len() - 1 {
            assert(t0[j] < t0[t0.len() - 1]);
        }
    }
    assert forall|q: int| 0 <= q < old.len() implies #[trigger] t.contains(old[q]) by {
        assert(t0.contains(old[q]));
        let j = choose|j: int| 0 <= j < t0.len() && t0[j] == old[q];
        assert(t[j] == old[q]);
    }
    assert forall|j: int| 0 <= j < m0 implies #[trigger] old.contains(t[j]) by {
        assert(t[j] == t0[j]);
    }
    assert forall|a: int, b: int| 0 <= a < b < t.len() implies t[a] < t[b] by {
        if b == t0.len() {
            if a < t0.len() - 1 {
                assert(t0[a] < t0[t0.len() - 1]);
            }
        }
    }
    assert forall|j: int| m0 <= j < t.len() implies #[trigger] steps_up_at(old, t, j) by {
        if j < t0.len() {
            assert(steps_up_at(old, t0, j));
            assert(t[j] == t0[j]);
            assert(t[j - 1] == t0[j - 1]);
        }
    }
}

/// Every time leaves room for a minute's step per entry.
pub open spec fn times_fit(old: Seq<i64>) -> bool {
    forall|i: int| 0 <= i < old.len() ==> #[trigger] old[i] <= i64::MAX - TIMESTAMP_STEP * old.len()
}

/// The modification times that saving gives the entries, in their order.
pub fn save_schedule(plugins: &Vec<Plugin>) -> (r: Result<Vec<i64>, Error>)
    ensures
        r matches Ok(ts) ==> is_save_schedule(mtimes(views(plugins@)), ts@),
        r matches Err(e) ==> e is SystemTimeError,
        times_fit(mtimes(views(plugins@))) ==> r is Ok,
{
    let ghost old = mtimes(views(plugins@));
    let mut ts: Vec<i64> = Vec::new();
    let mut i: usize = 0;
    while i < plugins.len()
        invariant
            0 <= i <= plugins@.len(),
            old == mtimes(views(plugins@)),
            old.len() == plugins@.len(),
            ts@.len() <= i,
            strictly_increasing(ts@),
            forall|q: int| 0 <= q < i ==> #[trigger] ts@.contains(old[q]),
            forall|j: int| 0 <= j < ts@.len() ==> #[trigger] old.subrange(0, i as int).contains(ts@[j]),
        decreases plugins@.len() - i,
    {
        let m = plugins[i].modification_time();
        assert(old[i as int] == m);
        let mut k: usize = 0;
        while k < ts.len() && ts[k] < m
            invariant
                0 <= k <= ts@.len(),
                forall|j: int| 0 <= j < k ==> ts@[j] < m,
            decreases ts@.len() - k,
        {
            k += 1;
        }
        let ghost t0 = ts@;
        if k < ts.len() && ts[k] == m {
            proof {
                assert(ts@.contains(old[i as int]));
                assert forall|j: int| 0 <= j < ts@.len() implies #[trigger] old.subrange(0, i + 1).contains(ts@[j]) by {
                    assert(old.subrange(0, i as int).contains(ts@[j]));
                    let q = choose|q: int| 0 <= q < old.subrange(0, i as int).len() && old.subrange(0, i as int)[q] == ts@[j];
                    assert(old.subrange(0, i + 1)[q] == ts@[j]);
                }
            }
        } else {
            ts.insert(k, m);
            proof {
                assert(ts@ == t0.insert(k as int, m));
                assert forall|a: int, b: int| 0 <= a < b < ts@.len() implies ts@[a] < ts@[b] by {
                    if k < t0.len() {
                        assert(t0[k as int] > m);
                    }
                    if a < k && b > k {
                        assert(t0[a] < m);
                    }
                }
                assert forall|q: int| 0 <= q < i + 1 implies #[trigger] ts@.contains(old[q]) by {
                    if q == i {
                        assert(ts@[k as int] == old[q]);
                    } else {
                        assert(t0.contains(old[q]));
                        let j = choose|j: int| 0 <= j < t0.len() && t0[j] == old[q];
                        let j1 = if j < k { j } else { j + 1 };
                        assert(ts@[j1] == old[q]);
                    }
                }
                assert forall|j: int| 0 <= j < ts@.len() implies #[trigger] old.subrange(0, i + 1).contains(ts@[j]) by {
                    if j == k {
                        assert(old.subrange(0, i + 1)[i as int] == ts@[j]);
                    } else {
                        let j1 = if j < k { j } else { j - 1 };
                        assert(ts@[j] == t0[j1]);
                        assert(old.subrange(0, i as int).contains(t0[j1]));
                        let q = choose|q: int| 0 <= q < old.subrange(0, i as int).len() && old.subrange(0, i as int)[q] == t0[j1];
                        assert(old.subrange(0, i + 1)[q] == ts@[j]);
                    }
                }
            }
        }
        i += 1;
    }
    assert(old.subrange(0, i as int) =~= old);
    let ghost m0 = ts@.len();
    proof {
        if times_fit(old) && ts@.len() > 0 {
            assert(old.contains(ts@[ts@.len() - 1]));
            let q = choose|q: int| 0 <= q < old.len() && old[q] == ts@[ts@.len() - 1];
            assert(old[q] <= i64::MAX - TIMESTAMP_STEP * old.len());
        }
    }
    while ts.len() < plugins.len()
        invariant
            m0 <= ts@.len() <= plugins@.len(),
            old == mtimes(views(plugins@)),
            old.len() == plugins@.len(),
            strictly_increasing(ts@),
            forall|q: int| 0 <= q < old.len() ==> #[trigger] ts@.contains(old[q]),
            forall|j: int| 0 <= j < m0 ==> #[trigger] old.contains(ts@[j]),
            forall|j: int| m0 <= j < ts@.len() ==> #[trigger] steps_up_at(old, ts@, j),
            times_fit(old) && ts@.len() > 0 ==> ts@.last() + TIMESTAMP_STEP * (old.len() - ts@.len()) <= i64::MAX,
        decreases plugins@.len() - ts@.len(),
    {
        let next = if ts.len() == 0 {
            TIMESTAMP_STEP
        } else {
            let last = ts[ts.len() - 1];
            if last > i64::MAX - TIMESTAMP_STEP {
                return Err(Error::SystemTimeError("modification time out of range".to_string()));
            }
            last + TIMESTAMP_STEP
        };
        let ghost t0 = ts@;
        ts.push(next);
        proof {
            if t0.len() == 0 {
                assert(t0.contains(old[0]));
            }
            assert(ts@.last() == t0.last() + TIMESTAMP_STEP);
            assert(TIMESTAMP_STEP * (old.len() - t0.len()) == TIMESTAMP_STEP + TIMESTAMP_STEP * (old.len() - ts@.len()));
            lemma_extend_schedule(old, t0, m0 as int, next);
        }
    }
    Ok(ts)
}

impl TimestampBasedLoadOrder {
    pub open spec fn entries(&self) -> Seq<PluginView> {
        views(self.plugins@)
    }

    pub open spec fn files(&self) -> Seq<PluginView> {
        views(self.plugin_files@)
    }

    /// Names are unique and masters come first.
    pub open spec fn wf(&self) -> bool {
        unique_names(self.entries()) && partitioned(self.entries())
    }

    /// An empty load order.
    pub fn new(game_settings: GameSettings) -> (r: TimestampBasedLoadOrder)
        ensures
            r.wf(),
            r.entries().len() == 0,
            r.files().len() == 0,
            r.game_settings == game_settings,
    {
        TimestampBasedLoadOrder { game_settings, plugins: Vec::new(), plugin_files: Vec::new() }
    }

    pub fn game_settings(&self) -> (r: &GameSettings)
        ensures
            *r == self.game_settings,
    {
        &self.game_settings
    }

    pub fn plugins(&self) -> (r: &Vec<Plugin>)
        ensures
            views(r@) == self.entries(),
    {
        &self.plugins
    }

    /// Where a new entry goes: a master before the first non-master, a
    /// non-master at the end (`None`).
    pub fn insert_position(&self, plugin: &Plugin) -> (r: Option<usize>)
        ensures
            plugin@.master ==> first_non_master(self.entries(), r),
            !plugin@.master ==> r is None,
    {
        if plugin.is_master_file() {
            find_first_non_master_position(&self.plugins)
        } else {
            None
        }
    }
    /// Gives the entries the given modification times, in order.
    pub fn set_modification_times(&mut self, ts: &Vec<i64>)
        requires
            old(self).wf(),
            ts@.len() == old(self).entries().len(),
        ensures
            final(self).wf(),
            final(self).game_settings == old(self).game_settings,
            final(self).plugin_files == old(self).plugin_files,
            final(self).entries().len() == old(self).entries().len(),
            forall|i: int|
                0 <= i < ts@.len() ==> (#[trigger] final(self).entries()[i]) == (PluginView {
                    mtime: ts@[i],
                    ..old(self).entries()[i]
                }),
    {
        let ghost s = self.entries();
        let mut i: usize = 0;
        while i < ts.len()
            invariant
                0 <= i <= ts@.len(),
                ts@.len() == s.len(),
                s == old(self).entries(),
                self.game_settings == old(self).game_settings,
                self.plugin_files == old(self).plugin_files,
                self.entries().len() == s.len(),
                forall|k: int| 0 <= k < i ==> (#[trigger] self.entries()[k]) == (PluginView { mtime: ts@[k], ..s[k] }),
                forall|k: int| i <= k < s.len() ==> (#[trigger] self.entries()[k]) == s[k],
            decreases ts@.len() - i,
        {
            let ghost before = self.entries();
            let ghost pv = self.plugins@;
            self.plugins[i].set_modification_time(ts[i]);
            proof {
                assert forall|k: int| 0 <= k < s.len() implies #[trigger] self.entries()[k]
                    == before.update(i as int, PluginView { mtime: ts@[i as int], ..s[i as int] })[k] by {
                    assert(self.entries()[k] == self.plugins@[k]@);
                    assert(before[k] == pv[k]@);
                }
            }
            i += 1;
        }
        proof {
            assert forall|a: int, b: int|
                0 <= a < s.len() && 0 <= b < s.len() && a != b implies !same_name(
                #[trigger] self.entries()[a].name,
                #[trigger] self.entries()[b].name,
            ) by {
                assert(self.entries()[a].name == s[a].name && self.entries()[b].name == s[b].name);
            }
            assert forall|a: int, b: int|
                0 <= a < b < s.len() && (#[trigger] self.entries()[b]).master implies (#[trigger] self.entries()[a]).master by {
                assert(self.entries()[a].master == s[a].master && self.entries()[b].master == s[b].master);
            }
        }
    }

    /// Deactivates every entry, then activates each listed name that
    /// stands for an entry or a valid plugin file.
    pub fn load_active_plugins(&mut self, names: &Vec<String>)
        requires
            old(self).wf(),
        ensures
            final(self).wf(),
            final(self).game_settings == old(self).game_settings,
            final(self).plugin_files == old(self).plugin_files,
            forall|n: Seq<char>| has_name(old(self).entries(), n) ==> #[trigger] has_name(final(self).entries(), n),
            forall|i: int|
                0 <= i < names@.len() && (has_name(old(self).entries(), #[trigger] names@[i]@) || has_name(
                    old(self).files(),
                    names@[i]@,
                )) ==> is_active_in(final(self).entries(), names@[i]@),
            forall|c: int|
                0 <= c < final(self).entries().len() && (#[trigger] final(self).entries()[c]).active ==> exists|i: int|
                    0 <= i < names@.len() && same_name(final(self).entries()[c].name, #[trigger] names@[i]@),
            crate::load_order::keeps_order(old(self).entries(), final(self).entries()),
            crate::load_order::comes_from(old(self).entries(), final(self).entries(), old(self).files()),
            final(self).entries() == crate::load_order::listed_in_turn(
                crate::load_order::deactivated(old(self).entries()),
                old(self).files(),
                names@.map_values(|n: String| n@),
            ),
    {
        let ghost e = self.entries();
        let ghost ns = names@.map_values(|n: String| n@);
        self.deactivate_all();
        proof {
            assert(self.entries() =~= crate::load_order::deactivated(e));
            assert(ns.subrange(0, 0) =~= Seq::<Seq<char>>::empty());
            crate::load_order::lemma_same_names_keep_order(e, self.entries());
            crate::load_order::lemma_same_names_come_from(e, self.entries(), self.files());
            assert forall|m: Seq<char>| has_name(e, m) implies #[trigger] has_name(self.entries(), m) by {
                let c = choose|c: int| 0 <= c < e.len() && same_name(#[trigger] e[c].name, m);
                assert(self.entries()[c].name == e[c].name);
            }
            assert forall|c: int| 0 <= c < self.entries().len() implies !(#[trigger] self.entries()[c]).active by {
                assert(self.entries()[c] == PluginView { active: false, ..e[c] });
            }
        }
        let mut i: usize = 0;
        while i < names.len()
            invariant
                self.wf(),
                0 <= i <= names@.len(),
                self.game_settings == old(self).game_settings,
                self.plugin_files == old(self).plugin_files,
                e == old(self).entries(),
                forall|m: Seq<char>| has_name(e, m) ==> #[trigger] has_name(self.entries(), m),
                forall|j: int|
                    0 <= j < i && (has_name(e, #[trigger] names@[j]@) || has_name(self.files(), names@[j]@))
                        ==> is_active_in(self.entries(), names@[j]@),
                forall|c: int|
                    0 <= c < self.entries().len() && (#[trigger] self.entries()[c]).active ==> exists|j: int|
                        0 <= j < i && same_name(self.entries()[c].name, #[trigger] names@[j]@),
                crate::load_order::keeps_order(e, self.entries()),
                crate::load_order::comes_from(e, self.entries(), self.files()),
                ns == names@.map_values(|n: String| n@),
                self.entries() == crate::load_order::listed_in_turn(crate::load_order::deactivated(e), self.files(), ns.subrange(0, i as int)),
            decreases names@.len() - i,
        {
            let ghost s1 = self.entries();
            self.activate_unvalidated(names[i].as_str());
            proof {
                assert(ns.subrange(0, i + 1).drop_last() =~= ns.subrange(0, i as int));
                assert(ns[i as int] == names@[i as int]@);
                crate::load_order::lemma_keeps_order_trans(e, s1, self.entries());
                crate::load_order::lemma_comes_from_trans(e, s1, self.entries(), self.files());
                assert forall|c: int|
                    0 <= c < self.entries().len() && (#[trigger] self.entries()[c]).active implies exists|j: int|
                        0 <= j < i + 1 && same_name(self.entries()[c].name, #[trigger] names@[j]@) by {
                    if is_active_in(s1, self.entries()[c].name) {
                        let q = choose|q: int| 0 <= q < s1.len() && same_name(#[trigger] s1[q].name, self.entries()[c].name) && s1[q].active;
                        let j = choose|j: int| 0 <= j < i && same_name(s1[q].name, #[trigger] names@[j]@);
                        assert(same_name(self.entries()[c].name, names@[j]@));
                    } else {
                        assert(same_name(self.entries()[c].name, names@[i as int]@));
                    }
                }
                assert forall|m: Seq<char>| has_name(e, m) implies #[trigger] has_name(self.entries(), m) by {
                    assert(has_name(s1, m));
                }
                assert forall|j: int|
                    0 <= j < i + 1 && (has_name(e, #[trigger] names@[j]@) || has_name(self.files(), names@[j]@))
                        implies is_active_in(self.entries(), names@[j]@) by {
                    if j < i {
                        assert(is_active_in(s1, names@[j]@));
                    } else {
                        if has_name(e, names@[j]@) {
                            assert(has_name(s1, names@[j]@));
                        }
                    }
                }
            }
            i += 1;
        }
        assert(ns.subrange(0, i as int) =~= ns);
    }

    /// Rebuilds the order from the plugin files found in the plugins
    /// directory and the contents of the active-plugins file, if there is
    /// one: entries sorted masters first, then by modification time, the
    /// listed and implicitly active plugins active, within the caps.
    pub fn load(&mut self, plugin_files: Vec<Plugin>, active_plugins_file: Option<&[u8]>) -> (r: Result<(), Error>)
        requires
            old(self).wf(),
        ensures
            final(self).wf(),
            final(self).game_settings == old(self).game_settings,
            views(final(self).plugin_files@) == views(plugin_files@),
            r matches Err(e) ==> e is DecodeError,
            r is Ok <==> decodes_all(active_plugins_file, old(self).game_settings.id == GameId::Morrowind),
            r is Ok ==> forall|c: int|
                0 <= c < final(self).entries().len() ==> has_name(views(plugin_files@), (#[trigger] final(self).entries()[c]).name),
            r is Ok ==> exists|m: int|
                #[trigger] loaded_from(
                    loaded_before_sort(views(plugin_files@), active_plugins_file, old(self).game_settings.id, old(self).game_settings.implicits()),
                    final(self).entries(),
                    active_plugins_file,
                    old(self).game_settings.id,
                    old(self).game_settings.implicits(),
                    m,
                ),
            r is Ok ==> exists|m: int|
                #[trigger] crate::mutable::excess_cut(
                    with_wanted(
                        final(self).entries(),
                        active_plugins_file,
                        old(self).game_settings.id,
                        old(self).game_settings.implicits(),
                    ),
                    final(self).entries(),
                    old(self).game_settings.implicits(),
                    m,
                ),
            r is Ok && crate::mutable::count_active_implicit(
                final(self).entries(),
                old(self).game_settings.implicits(),
                false,
            ) <= MAX_ACTIVE_NORMAL_PLUGINS && crate::mutable::count_active_implicit(
                final(self).entries(),
                old(self).game_settings.implicits(),
                true,
            ) <= MAX_ACTIVE_LIGHT_MASTERS ==> within_caps(final(self).entries()),
            r is Ok ==> sorted_by_time(final(self).entries()),
            r is Ok ==> forall|k: int|
                0 <= k < plugin_files@.len() && !is_implicit(
                    old(self).game_settings.implicits(),
                    #[trigger] views(plugin_files@)[k].name,
                ) ==> has_name(final(self).entries(), views(plugin_files@)[k].name),
            r is Ok ==> forall|k: int|
                0 <= k < old(self).game_settings.implicits().len() && has_name(
                    views(plugin_files@),
                    #[trigger] old(self).game_settings.implicits()[k]@,
                ) ==> is_active_in(final(self).entries(), old(self).game_settings.implicits()[k]@),
            r is Ok ==> within_caps(final(self).entries()) || forall|i: int|
                0 <= i < final(self).entries().len() && (#[trigger] final(self).entries()[i]).active
                    ==> is_implicit(old(self).game_settings.implicits(), final(self).entries()[i].name),
            r is Ok ==> forall|c: int|
                0 <= c < final(self).entries().len() && (#[trigger] final(self).entries()[c]).active ==> is_implicit(
                    old(self).game_settings.implicits(),
                    final(self).entries()[c].name,
                ) || file_lists(
                    active_plugins_file,
                    old(self).game_settings.id == GameId::Morrowind,
                    final(self).entries()[c].name,
                ),
    {
        self.plugins = Vec::new();
        self.plugin_files = plugin_files;
        let ghost e0 = self.entries();
        proof {
            assert(self.entries() =~= Seq::<PluginView>::empty());
        }
        let ghost f = self.files();
        let ghost imps = self.game_settings.implicits();
        self.add_missing_plugins();
        assert(forall|k: int| 0 <= k < f.len() && !is_implicit(imps, #[trigger] f[k].name) ==> has_name(self.entries(), f[k].name));
        let morrowind = self.game_settings.id == GameId::Morrowind;
        let names = match active_plugins_file {
            Some(content) => match read_plugin_names(content, morrowind) {
                Ok(names) => names,
                Err(e) => {
                    return Err(e);
                },
            },
            None => Vec::new(),
        };
        let ghost e1 = self.entries();
        proof {
            if active_plugins_file is None {
                assert(names@.len() == 0);
            }
            // The names read are exactly the decoded values that the file lists.
            assert forall|n: Seq<char>| #[trigger] file_lists(active_plugins_file, morrowind, n) implies exists|j: int|
                0 <= j < names@.len() && same_name(names@[j]@, n) by {
                let content = active_plugins_file->Some_0;
                let lv = listed_values(lines_of(content@), morrowind);
                let v = choose|v: Seq<u8>|
                    #[trigger] listed_in(active_plugins_file, morrowind, v) && match cp1252_decoded(v) {
                        Some(x) => same_name(x, n),
                        None => false,
                    };
                assert(lv.contains(v));
                let j = choose|j: int| 0 <= j < lv.len() && lv[j] == v;
                assert(cp1252_decoded(lv[j]) == Some(names@[j]@));
            }
        }
        proof {
            let dn = decoded_names(active_plugins_file, morrowind);
            if active_plugins_file is Some {
                assert(names@.map_values(|n: String| n@) =~= dn);
            } else {
                assert(names@.map_values(|n: String| n@) =~= dn);
            }
        }
        self.load_active_plugins(&names);
        let ghost e2 = self.entries();
        proof {
            assert forall|c: int| 0 <= c < e2.len() && (#[trigger] e2[c]).active implies file_lists(active_plugins_file, morrowind, e2[c].name) by {
                let j = choose|j: int| 0 <= j < names@.len() && same_name(e2[c].name, #[trigger] names@[j]@);
                let content = active_plugins_file->Some_0;
                let v = listed_values(lines_of(content@), morrowind)[j];
                assert(cp1252_decoded(v) == Some(names@[j]@));
                assert(listed_values(lines_of(content@), morrowind).contains(v));
                assert(listed_in(active_plugins_file, morrowind, v));
            }
        }
        self.add_implicitly_active_plugins();
        let ghost e3 = self.entries();
        self.plugins = sort_by_time(&self.plugins);
        let ghost e4 = self.entries();
        proof {
            lemma_same_entries_grows(e3, e4);
            assert forall|k: int| 0 <= k < f.len() && !is_implicit(imps, #[trigger] f[k].name) implies has_name(e4, f[k].name) by {
                assert(has_name(e1, f[k].name));
                assert(has_name(e2, f[k].name));
            }
            assert forall|k: int| 0 <= k < imps.len() && has_name(f, #[trigger] imps[k]@) implies is_active_in(e4, imps[k]@) by {
                assert(is_active_in(e3, imps[k]@));
            }
        }
        proof {
            crate::load_order::lemma_comes_from_trans(e0, e1, e2, f);
            crate::load_order::lemma_comes_from_trans(e0, e2, e3, f);
            assert forall|c: int| 0 <= c < e3.len() implies (#[trigger] e3[c]).active == wanted_active(active_plugins_file, morrowind, imps, e3[c].name)
                && has_name(f, e3[c].name) by {
                assert(has_name(e0, e3[c].name) || has_name(f, e3[c].name));
                let n = e3[c].name;
                if is_implicit(imps, n) {
                    let k = choose|k: int| 0 <= k < imps.len() && same_name(#[trigger] imps[k]@, n);
                    let x = choose|x: int| 0 <= x < f.len() && same_name(#[trigger] f[x].name, n);
                    assert(same_name(f[x].name, imps[k]@));
                    assert(is_active_in(e3, imps[k]@));
                    let q = choose|q: int| 0 <= q < e3.len() && same_name(#[trigger] e3[q].name, imps[k]@) && e3[q].active;
                    if q != c {
                        assert(!same_name(e3[q].name, e3[c].name));
                    }
                }
                if file_lists(active_plugins_file, morrowind, n) {
                    let j = choose|j: int| 0 <= j < names@.len() && same_name(names@[j]@, n);
                    let x = choose|x: int| 0 <= x < f.len() && same_name(#[trigger] f[x].name, n);
                    assert(same_name(f[x].name, names@[j]@));
                    assert(has_name(self.files(), names@[j]@));
                    assert(is_active_in(e2, names@[j]@));
                    assert(is_active_in(e3, names@[j]@));
                    let q = choose|q: int| 0 <= q < e3.len() && same_name(#[trigger] e3[q].name, names@[j]@) && e3[q].active;
                    if q != c {
                        assert(!same_name(e3[q].name, e3[c].name));
                    }
                }
                if e3[c].active && !is_implicit(imps, n) {
                    assert(is_active_in(e2, n));
                    let c2 = choose|c2: int| 0 <= c2 < e2.len() && same_name(#[trigger] e2[c2].name, n) && e2[c2].active;
                    assert(file_lists(active_plugins_file, morrowind, e2[c2].name));
                    let v = choose|v: Seq<u8>|
                        #[trigger] listed_in(active_plugins_file, morrowind, v) && match cp1252_decoded(v) {
                            Some(x) => same_name(x, e2[c2].name),
                            None => false,
                        };
                    assert(listed_in(active_plugins_file, morrowind, v));
                }
            }
            assert forall|c: int| 0 <= c < e4.len() implies (#[trigger] e4[c]).active == wanted_active(active_plugins_file, morrowind, imps, e4[c].name)
                && has_name(f, e4[c].name) by {
                assert(e3.contains(e4[c]));
                let c3 = choose|c3: int| 0 <= c3 < e3.len() && e3[c3] == e4[c];
                assert(e3[c3].active == wanted_active(active_plugins_file, morrowind, imps, e3[c3].name));
            }
        }
        self.deactivate_excess_plugins();
        proof {
            let e5 = self.entries();
            let m = choose|m: int| #[trigger] crate::mutable::excess_cut(e4, e5, imps, m);
            let w = with_wanted(e5, active_plugins_file, self.game_settings.id, imps);
            assert forall|k: int| 0 <= k < e5.len() implies #[trigger] w[k] == e4[k] by {
                assert(e5[k] == (PluginView { active: e5[k].active, ..e4[k] }));
            }
            assert(w =~= e4);
            assert(crate::mutable::excess_cut(w, e5, imps, m));
            assert(e0 =~= Seq::<PluginView>::empty());
            assert(e3 == loaded_before_sort(f, active_plugins_file, self.game_settings.id, imps));
            assert(loaded_from(e3, e5, active_plugins_file, self.game_settings.id, imps, m));
            if crate::mutable::count_active_implicit(e5, imps, false) <= MAX_ACTIVE_NORMAL_PLUGINS
                && crate::mutable::count_active_implicit(e5, imps, true) <= MAX_ACTIVE_LIGHT_MASTERS {
                assert forall|k: int| 0 <= k < e4.len() implies (#[trigger] e5[k]).name == e4[k].name && e5[k].light == e4[k].light
                    && (e5[k].active && is_implicit(imps, e5[k].name)) == (e4[k].active && is_implicit(imps, e4[k].name)) by {
                    assert(e5[k] == (PluginView { active: e5[k].active, ..e4[k] }));
                    assert(is_implicit(imps, e4[k].name) ==> e4[k].active);
                    if k >= m {
                        assert(e5[k] == (PluginView { active: e4[k].active && is_implicit(imps, e4[k].name), ..e4[k] }));
                    } else {
                        assert(e5[k] == e4[k]);
                    }
                }
                crate::mutable::lemma_count_implicit_same(e4, e5, imps, false);
                crate::mutable::lemma_count_implicit_same(e4, e5, imps, true);
                crate::mutable::lemma_excess_within_caps(e4, e5, imps, m);
            }
            assert forall|c: int| 0 <= c < e5.len() implies has_name(f, (#[trigger] e5[c]).name) by {
                assert(e5[c].name == e4[c].name);
            }
            assert forall|a: int, b: int| 0 <= a < b < e5.len() implies sorts_before_or_with(#[trigger] e5[a], #[trigger] e5[b]) by {
                assert(e5[a].master == e4[a].master && e5[a].mtime == e4[a].mtime);
                assert(e5[b].master == e4[b].master && e5[b].mtime == e4[b].mtime);
            }
            assert forall|k: int| 0 <= k < f.len() && !is_implicit(imps, #[trigger] f[k].name) implies has_name(e5, f[k].name) by {
                let c = choose|c: int| 0 <= c < e4.len() && same_name(#[trigger] e4[c].name, f[k].name);
                assert(e5[c].name == e4[c].name);
            }
            assert forall|k: int| 0 <= k < imps.len() && has_name(f, #[trigger] imps[k]@) implies is_active_in(e5, imps[k]@) by {
                let c = choose|c: int| 0 <= c < e4.len() && same_name(#[trigger] e4[c].name, imps[k]@) && e4[c].active;
                assert(is_implicit(imps, e4[c].name));
                assert(e5[c].name == e4[c].name);
            }
            assert forall|i: int|
                0 <= i < e5.len() && (#[trigger] e5[i]).active && is_implicit(imps, e4[i].name)
                    implies is_implicit(imps, e5[i].name) by {
                assert(e5[i].name == e4[i].name);
            }
            assert forall|c: int| 0 <= c < e5.len() && (#[trigger] e5[c]).active implies is_implicit(imps, e5[c].name)
                || file_lists(active_plugins_file, morrowind, e5[c].name) by {
                assert(e4[c].active && e5[c].name == e4[c].name);
                assert(e3.contains(e4[c]));
                let c3 = choose|c3: int| 0 <= c3 < e3.len() && e3[c3] == e4[c];
                assert(e3[c3].active);
                if !is_implicit(imps, e3[c3].name) {
                    assert(is_active_in(e2, e3[c3].name));
                    let c2 = choose|c2: int| 0 <= c2 < e2.len() && same_name(#[trigger] e2[c2].name, e3[c3].name) && e2[c2].active;
                    assert(file_lists(active_plugins_file, morrowind, e2[c2].name));
                    let v = choose|v: Seq<u8>|
                        #[trigger] listed_in(active_plugins_file, morrowind, v) && match cp1252_decoded(v) {
                            Some(n) => same_name(n, e2[c2].name),
                            None => false,
                        };
                    assert(listed_in(active_plugins_file, morrowind, v));
                }
            }
        }
        Ok(())
    }

    /// Gives the entries strictly increasing modification times that keep
    /// the existing ones, and returns the new contents of the active-plugins
    /// file, given its current contents for Morrowind's ini prelude.
    pub fn save(&mut self, active_plugins_file: Option<&[u8]>) -> (r: Result<Vec<u8>, Error>)
        requires
            old(self).wf(),
        ensures
            final(self).wf(),
            final(self).game_settings == old(self).game_settings,
            final(self).plugin_files == old(self).plugin_files,
            r is Err ==> final(self).entries() == old(self).entries(),
            r matches Err(e) ==> e is EncodeError || e is SystemTimeError,
            r matches Err(Error::EncodeError(_)) <==> exists|i: int|
                0 <= i < active_names(old(self).entries()).len() && (#[trigger] cp1252_encoded(
                    active_names(old(self).entries())[i],
                )) is None,
            (forall|i: int|
                0 <= i < active_names(old(self).entries()).len() ==> (#[trigger] cp1252_encoded(
                    active_names(old(self).entries())[i],
                )) is Some) && times_fit(mtimes(old(self).entries())) ==> r is Ok,
            r is Ok ==> final(self).entries().len() == old(self).entries().len(),
            r is Ok ==> is_save_schedule(mtimes(old(self).entries()), mtimes(final(self).entries())),
            r is Ok ==> sorted_by_time(final(self).entries()) && distinct_times(final(self).entries()),
            r is Ok ==> forall|i: int|
                0 <= i < old(self).entries().len() ==> (#[trigger] final(self).entries()[i]) == (PluginView {
                    mtime: final(self).entries()[i].mtime,
                    ..old(self).entries()[i]
                }),
            r matches Ok(b) ==> b@ == (if old(self).game_settings.id == GameId::Morrowind && active_plugins_file is Some {
                prelude_of(file_lines(active_plugins_file->Some_0@))
            } else {
                Seq::empty()
            }) + entry_lines(
                active_names(old(self).entries()).map_values(|n: Seq<char>| cp1252_encoded(n)->Some_0),
                old(self).game_settings.id == GameId::Morrowind,
            ),
    {
        let ghost e = self.entries();
        let morrowind = self.game_settings.id == GameId::Morrowind;
        let prelude = match active_plugins_file {
            Some(content) => {
                if morrowind {
                    file_prelude(content)
                } else {
                    Vec::new()
                }
            },
            None => Vec::new(),
        };
        let names = self.active_plugin_names();
        proof {
            let an = active_names(e);
            assert(names@.map_values(|s: String| s@) == an);
            assert forall|i: int| 0 <= i < names@.len() implies #[trigger] cp1252_encoded(names@[i]@) == cp1252_encoded(an[i]) by {
                assert(names@.map_values(|s: String| s@)[i] == names@[i]@);
            }
            assert(names@.map_values(|n: String| cp1252_encoded(n@)->Some_0) =~= an.map_values(|n: Seq<char>| cp1252_encoded(n)->Some_0));
        }
        let content = match active_plugins_file_content(&names, morrowind, &prelude) {
            Ok(c) => c,
            Err(err) => {
                return Err(err);
            },
        };
        let ts = match save_schedule(&self.plugins) {
            Ok(ts) => ts,
            Err(err) => {
                return Err(err);
            },
        };
        self.set_modification_times(&ts);
        proof {
            assert(mtimes(self.entries()) =~= ts@);
            let f = self.entries();
            assert forall|a: int, b: int| 0 <= a < b < f.len() implies sorts_before_or_with(#[trigger] f[a], #[trigger] f[b]) by {
                assert(f[a].mtime == ts@[a] && f[b].mtime == ts@[b]);
                if f[b].master {
                    assert(f[a].master);
                }
            }
            assert forall|a: int, b: int| 0 <= a < f.len() && 0 <= b < f.len() && a != b implies (#[trigger] f[a]).mtime != (#[trigger] f[b]).mtime by {
                assert(f[a].mtime == ts@[a] && f[b].mtime == ts@[b]);
            }
            assert(prelude@ == (if morrowind && active_plugins_file is Some {
                prelude_of(file_lines(active_plugins_file->Some_0@))
            } else {
                Seq::empty()
            }));
        }
        Ok(content)
    }

    /// Replaces the load order with the given names; see `replace_plugins`.
    pub fn set_load_order(&mut self, names: &[&str]) -> (r: Result<(), Error>)
        requires
            old(self).wf(),
        ensures
            final(self).wf(),
            final(self).game_settings == old(self).game_settings,
            final(self).plugin_files == old(self).plugin_files,
            r is Err ==> final(self).entries() == old(self).entries(),
            r matches Err(Error::DuplicatePlugin) <==> crate::load_order::has_duplicates(crate::load_order::name_views(names@)),
            r matches Err(Error::NonMasterBeforeMaster) <==> !crate::load_order::has_duplicates(crate::load_order::name_views(names@))
                && (forall|i: int| 0 <= i < names@.len() ==> has_name(old(self).files(), #[trigger] names@[i]@))
                && !partitioned(crate::load_order::resolved_all(old(self).entries(), old(self).files(), crate::load_order::name_views(names@))),
            r matches Err(Error::InvalidPlugin(_)) <==> !crate::load_order::has_duplicates(crate::load_order::name_views(names@))
                && exists|i: int| 0 <= i < names@.len() && !has_name(old(self).files(), #[trigger] names@[i]@),
            r matches Err(e) ==> e is DuplicatePlugin || e is InvalidPlugin || e is NonMasterBeforeMaster,
            r is Ok ==> final(self).entries() == crate::load_order::implicits_in_turn(
                crate::load_order::add_missing_in_turn(
                    crate::load_order::resolved_all(old(self).entries(), old(self).files(), crate::load_order::name_views(names@)),
                    old(self).files(),
                    old(self).game_settings.implicits(),
                    crate::load_order::entry_names(old(self).files()),
                ),
                old(self).files(),
                crate::load_order::string_names(old(self).game_settings.implicits()),
            ),
            r is Ok ==> forall|i: int| 0 <= i < names@.len() ==> has_name(final(self).entries(), #[trigger] names@[i]@),
            r is Ok ==> forall|i: int, j: int|
                0 <= i < j < names@.len() ==> crate::load_order::precedes(final(self).entries(), #[trigger] names@[i]@, #[trigger] names@[j]@),
    {
        let r = self.replace_plugins(names);
        proof {
            if r is Ok {
                let rs = crate::load_order::resolved_all(old(self).entries(), old(self).files(), crate::load_order::name_views(names@));
                assert forall|i: int| 0 <= i < names@.len() implies has_name(self.entries(), #[trigger] names@[i]@) by {
                    let n = names@[i]@;
                    assert(rs[i] == crate::load_order::resolved(old(self).entries(), old(self).files(), n));
                    if has_name(old(self).entries(), n) {
                        crate::load_order::lemma_first_named_exists(old(self).entries(), n);
                    } else {
                        crate::load_order::lemma_first_named_exists(old(self).files(), n);
                    }
                    assert(same_name(rs[i].name, n));
                    assert(has_name(rs, n));
                }
            }
        }
        r
    }

    /// Puts the named plugin at the given position; see
    /// `move_or_insert_plugin_with_index`.
    pub fn set_plugin_index(&mut self, name: &str, position: usize) -> (r: Result<(), Error>)
        requires
            old(self).wf(),
        ensures
            final(self).wf(),
            final(self).game_settings == old(self).game_settings,
            final(self).plugin_files == old(self).plugin_files,
            r is Err ==> final(self).entries() == old(self).entries(),
            r matches Err(e) ==> (e matches Error::InvalidPlugin(n) && n@ == name@) || e
                == Error::NonMasterBeforeMaster,
            r matches Err(Error::InvalidPlugin(_)) <==> !crate::load_order::has_name(old(self).entries(), name@)
                && !crate::load_order::has_name(old(self).files(), name@),
            forall|p: int|
                crate::load_order::is_first_named(old(self).entries(), name@, p) ==> (r is Err <==> p != position
                    && !crate::load_order::index_allowed(
                    old(self).entries().remove(p),
                    position as int,
                    old(self).entries()[p].master,
                )),
            forall|p: int|
                crate::load_order::is_first_named(old(self).entries(), name@, p) && p != position && r is Ok
                    ==> final(self).entries() == old(self).entries().remove(p).insert(
                    if position < old(self).entries().len() - 1 { position as int } else { old(self).entries().len() - 1 },
                    old(self).entries()[p],
                ),
            forall|k: int|
                !crate::load_order::has_name(old(self).entries(), name@) && crate::load_order::is_first_named(old(self).files(), name@, k)
                    ==> (r is Err <==> !crate::load_order::index_allowed(
                    old(self).entries(),
                    position as int,
                    old(self).files()[k].master,
                )),
            forall|k: int|
                !crate::load_order::has_name(old(self).entries(), name@) && crate::load_order::is_first_named(old(self).files(), name@, k)
                    && r is Ok ==> final(self).entries() == old(self).entries().insert(
                    if position < old(self).entries().len() { position as int } else { old(self).entries().len() as int },
                    PluginView { active: false, ..old(self).files()[k] },
                ),
            r is Ok ==> crate::load_order::is_first_named(
                final(self).entries(),
                name@,
                if position < final(self).entries().len() { position as int } else { final(self).entries().len() - 1 },
            ),
            forall|p: int|
                crate::load_order::is_first_named(old(self).entries(), name@, p) && p == position ==> r is Ok
                    && final(self).entries() == old(self).entries(),
    {
        self.move_or_insert_plugin_with_index(name, position)
    }

    /// The file system's modification times are the only record of the
    /// order, so they cannot disagree with another.
    pub fn is_self_consistent(&self) -> (r: Result<bool, Error>)
        ensures
            r == Ok::<bool, Error>(true),
    {
        Ok(true)
    }
}

} // verus!
