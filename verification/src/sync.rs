//! Mirroring local backups to a cloud: which backup groups and backups the cloud should
//! hold, and the run that uploads what it lacks and deletes what it should not hold.

use vstd::prelude::*;

use crate::storage::backup_group::BackupGroup;
use crate::text::{chars_le, chars_le_exec, chars_of, debug_str, str_eq, lemma_chars_le_antisymmetric,
    lemma_chars_le_total, lemma_chars_le_transitive};

verus! {

/// The views of some strings.
pub open spec fn strings_view(v: Seq<String>) -> Seq<Seq<char>> {
    v.map_values(|s: String| s@)
}

/// Whether names are in strictly increasing order (so each occurs once).
pub open spec fn strictly_sorted(s: Seq<Seq<char>>) -> bool {
    forall|i: int, j: int| 0 <= i < j < s.len() ==> chars_le(#[trigger] s[i], #[trigger] s[j]) && s[i] != s[j]
}

/// Adds a name to a set of names kept in strictly increasing order.
pub fn insert_sorted_unique(v: &mut Vec<String>, x: &str)
    requires
        strictly_sorted(strings_view(old(v)@)),
    ensures
        strictly_sorted(strings_view(final(v)@)),
        strings_view(final(v)@).to_set() == strings_view(old(v)@).to_set().insert(x@),
{
    let ghost s0 = strings_view(v@);
    let xs = chars_of(x);
    let mut p: usize = 0;
    while p < v.len()
        invariant
            p <= v@.len(),
            s0 == strings_view(v@),
            xs@ == x@,
            forall|k: int| 0 <= k < p ==> !chars_le(x@, #[trigger] s0[k]),
        ensures
            p <= v@.len(),
            forall|k: int| 0 <= k < p ==> !chars_le(x@, #[trigger] s0[k]),
            p < v@.len() ==> chars_le(x@, s0[p as int]),
        decreases v@.len() - p,
    {
        let other = chars_of(v[p].as_str());
        if chars_le_exec(xs.as_slice(), other.as_slice()) {
            break;
        }
        p += 1;
    }
    if p < v.len() && str_eq(v[p].as_str(), x) {
        assert(s0.to_set().insert(x@) =~= s0.to_set()) by {
            assert(s0[p as int] == x@);
        }
        return;
    }
    v.insert(p, String::from_str(x));
    proof {
        let s = strings_view(v@);
        assert(s =~= s0.insert(p as int, x@));
        assert forall|i: int, j: int| 0 <= i < j < s.len() implies chars_le(#[trigger] s[i], #[trigger] s[j]) && s[i] != s[j] by {
            if j < p {
                assert(s[i] == s0[i] && s[j] == s0[j]);
            } else if i > p {
                assert(s[i] == s0[i - 1] && s[j] == s0[j - 1]);
            } else if i == p {
                assert(chars_le(x@, s0[p as int]));
                assert(x@ != s0[p as int]);
                if j - 1 > p {
                    assert(chars_le(s0[p as int], s0[j - 1]) && s0[p as int] != s0[j - 1]);
                    lemma_chars_le_transitive(x@, s0[p as int], s0[j - 1]);
                    if x@ == s0[j - 1] {
                        lemma_chars_le_antisymmetric(x@, s0[p as int]);
                    }
                }
            } else if j == p {
                lemma_chars_le_total(x@, s0[i]);
            } else {
                lemma_chars_le_total(x@, s0[i]);
                assert(chars_le(x@, s0[p as int]));
                lemma_chars_le_transitive(s0[i], x@, s0[p as int]);
                if j - 1 > p {
                    lemma_chars_le_transitive(s0[i], s0[p as int], s0[j - 1]);
                }
                assert(s0[i] != s0[j - 1]);
            }
        }
        assert(s.to_set() =~= s0.to_set().insert(x@)) by {
            assert forall|e: Seq<char>| s.to_set().contains(e) implies s0.to_set().insert(x@).contains(e) by {
                let k = choose|k: int| 0 <= k < s.len() && s[k] == e;
                if k < p {
                    assert(s0[k] == e);
                } else if k > p {
                    assert(s0[k - 1] == e);
                }
            }
            assert forall|e: Seq<char>| s0.to_set().insert(x@).contains(e) implies s.to_set().contains(e) by {
                if e == x@ {
                    assert(s[p as int] == e);
                } else {
                    let k = choose|k: int| 0 <= k < s0.len() && s0[k] == e;
                    if k < p {
                        assert(s[k] == e);
                    } else {
                        assert(s[k + 1] == e);
                    }
                }
            }
        }
    }
}

/// A set of names copied, in the same order.
pub fn copy_strings(v: &Vec<String>) -> (r: Vec<String>)
    ensures
        strings_view(r@) == strings_view(v@),
{
    let mut r: Vec<String> = Vec::new();
    let mut i: usize = 0;
    while i < v.len()
        invariant
            i <= v@.len(),
            strings_view(r@) == strings_view(v@).take(i as int),
        decreases v@.len() - i,
    {
        let c = String::from_str(v[i].as_str());
        let ghost before = strings_view(r@);
        r.push(c);
        assert(strings_view(r@) =~= before.push(c@));
        assert(strings_view(v@)[i as int] == c@);
        i += 1;
        assert(strings_view(r@) =~= strings_view(v@).take(i as int));
    }
    assert(strings_view(v@).take(i as int) =~= strings_view(v@));
    r
}

/// Backup groups by name, each with the set of its backup names: both kept in strictly
/// increasing order of names (a sorted map of sorted sets).
pub struct GroupMap {
    pub entries: Vec<(String, Vec<String>)>,
}

/// A group map as values.
pub type GroupSeq = Seq<(Seq<char>, Seq<Seq<char>>)>;

/// The group names of a group map.
pub open spec fn keys_of(s: GroupSeq) -> Seq<Seq<char>> {
    s.map_values(|e: (Seq<char>, Seq<Seq<char>>)| e.0)
}

/// Whether the groups and the backups of each group are in strictly increasing order.
pub open spec fn map_wf(s: GroupSeq) -> bool {
    &&& strictly_sorted(keys_of(s))
    &&& forall|i: int| 0 <= i < s.len() ==> strictly_sorted(#[trigger] s[i].1)
}

/// The map from group names to sets of backup names.
pub open spec fn as_map(s: GroupSeq) -> Map<Seq<char>, Set<Seq<char>>>
    decreases s.len(),
{
    if s.len() == 0 {
        Map::empty()
    } else {
        as_map(s.drop_last()).insert(s.last().0, s.last().1.to_set())
    }
}

/// What the map holds of a group map whose group names occur once each.
pub proof fn lemma_as_map(s: GroupSeq)
    requires
        strictly_sorted(keys_of(s)),
    ensures
        forall|k: Seq<char>| as_map(s).dom().contains(k) <==> exists|i: int| 0 <= i < s.len() && (#[trigger] s[i]).0 == k,
        forall|i: int| 0 <= i < s.len() ==> as_map(s)[(#[trigger] s[i]).0] == s[i].1.to_set(),
        as_map(s).dom().finite(),
    decreases s.len(),
{
    if s.len() > 0 {
        let init = s.drop_last();
        assert(keys_of(init) =~= keys_of(s).drop_last());
        assert forall|a: int, b: int| 0 <= a < b < keys_of(init).len() implies chars_le(#[trigger] keys_of(init)[a], #[trigger] keys_of(init)[b]) && keys_of(init)[a] != keys_of(init)[b] by {
            assert(keys_of(init)[a] == keys_of(s)[a] && keys_of(init)[b] == keys_of(s)[b]);
        }
        lemma_as_map(init);
        assert forall|k: Seq<char>| as_map(s).dom().contains(k) <==> exists|i: int| 0 <= i < s.len() && (#[trigger] s[i]).0 == k by {
            if as_map(s).dom().contains(k) && k != s.last().0 {
                let i = choose|i: int| 0 <= i < init.len() && (#[trigger] init[i]).0 == k;
                assert(s[i] == init[i]);
            }
            if exists|i: int| 0 <= i < s.len() && (#[trigger] s[i]).0 == k {
                let i = choose|i: int| 0 <= i < s.len() && (#[trigger] s[i]).0 == k;
                if i < s.len() - 1 {
                    assert(init[i] == s[i]);
                }
            }
        }
        assert forall|i: int| 0 <= i < s.len() implies as_map(s)[(#[trigger] s[i]).0] == s[i].1.to_set() by {
            if i < s.len() - 1 {
                assert(init[i] == s[i]);
                assert(keys_of(s)[i] != keys_of(s)[s.len() - 1]);
            }
        }
    }
}

impl View for GroupMap {
    type V = GroupSeq;

    open spec fn view(&self) -> GroupSeq {
        self.entries@.map_values(|e: (String, Vec<String>)| (e.0@, strings_view(e.1@)))
    }
}

impl GroupMap {
    /// An empty group map.
    pub fn new() -> (r: GroupMap)
        ensures
            r@ == Seq::<(Seq<char>, Seq<Seq<char>>)>::empty(),
    {
        let r = GroupMap { entries: Vec::new() };
        assert(r@ =~= Seq::<(Seq<char>, Seq<Seq<char>>)>::empty());
        r
    }

    /// The place of a group: the first position whose name is not below it, and whether
    /// the group is there.
    fn find(&self, name: &str) -> (r: (usize, bool))
        requires
            map_wf(self@),
        ensures
            r.0 <= self@.len(),
            forall|k: int| 0 <= k < r.0 ==> !chars_le(name@, #[trigger] keys_of(self@)[k]),
            r.0 < self@.len() ==> chars_le(name@, keys_of(self@)[r.0 as int]),
            r.1 <==> (r.0 < self@.len() && keys_of(self@)[r.0 as int] == name@),
    {
        let xs = chars_of(name);
        let mut p: usize = 0;
        while p < self.entries.len()
            invariant
                p <= self@.len(),
                xs@ == name@,
                forall|k: int| 0 <= k < p ==> !chars_le(name@, #[trigger] keys_of(self@)[k]),
            ensures
                p <= self@.len(),
                forall|k: int| 0 <= k < p ==> !chars_le(name@, #[trigger] keys_of(self@)[k]),
                p < self@.len() ==> chars_le(name@, keys_of(self@)[p as int]),
            decreases self@.len() - p,
        {
            let other = chars_of(self.entries[p].0.as_str());
            assert(keys_of(self@)[p as int] == self.entries@[p as int].0@);
            if chars_le_exec(xs.as_slice(), other.as_slice()) {
                break;
            }
            p += 1;
        }
        if p < self.entries.len() {
            assert(keys_of(self@)[p as int] == self.entries@[p as int].0@);
            let found = str_eq(self.entries[p].0.as_str(), name);
            (p, found)
        } else {
            (p, false)
        }
    }

    /// Whether the map holds a group.
    pub fn contains_key(&self, name: &str) -> (r: bool)
        requires
            map_wf(self@),
        ensures
            r == as_map(self@).dom().contains(name@),
    {
        proof {
            lemma_as_map(self@);
        }
        let (p, found) = self.find(name);
        proof {
            if !found {
                assert forall|i: int| 0 <= i < self@.len() implies (#[trigger] self@[i]).0 != name@ by {
                    assert(keys_of(self@)[i] == self@[i].0);
                    if i < p {
                        lemma_chars_le_total(name@, keys_of(self@)[i]);
                        if self@[i].0 == name@ {
                            crate::text::lemma_chars_le_reflexive(name@);
                        }
                    } else if i > p {
                        lemma_chars_le_transitive(name@, keys_of(self@)[p as int], keys_of(self@)[i]);
                        if self@[i].0 == name@ {
                            lemma_chars_le_antisymmetric(name@, keys_of(self@)[p as int]);
                        }
                    }
                }
            } else {
                assert(self@[p as int].0 == keys_of(self@)[p as int]);
            }
        }
        found
    }
}

/// A group map with a group inserted in its place or replaced.
pub proof fn lemma_put(s: GroupSeq, p: int, found: bool, e: (Seq<char>, Seq<Seq<char>>))
    requires
        map_wf(s),
        strictly_sorted(e.1),
        0 <= p <= s.len(),
        forall|k: int| 0 <= k < p ==> !chars_le(e.0, #[trigger] keys_of(s)[k]),
        p < s.len() ==> chars_le(e.0, keys_of(s)[p]),
        found <==> (p < s.len() && keys_of(s)[p] == e.0),
    ensures
        map_wf(if found { s.update(p, e) } else { s.insert(p, e) }),
        as_map(if found { s.update(p, e) } else { s.insert(p, e) }) == as_map(s).insert(e.0, e.1.to_set()),
{
    let s2 = if found { s.update(p, e) } else { s.insert(p, e) };
    let ks = keys_of(s);
    let ks2 = keys_of(s2);
    // Where each entry of the new map comes from.
    assert forall|i: int| 0 <= i < s2.len() && i != p implies #[trigger] s2[i] == (if found || i < p { s[i] } else { s[i - 1] }) by {}
    assert forall|i: int, j: int| 0 <= i < j < ks2.len() implies chars_le(#[trigger] ks2[i], #[trigger] ks2[j]) && ks2[i] != ks2[j] by {
        assert(ks2[i] == s2[i].0 && ks2[j] == s2[j].0);
        if i != p && j != p {
            let a = if found || i < p { i } else { i - 1 };
            let b = if found || j < p { j } else { j - 1 };
            assert(ks[a] == ks2[i] && ks[b] == ks2[j]);
            assert(a < b);
        } else if i == p {
            let b = if found { j } else { j - 1 };
            assert(ks[b] == ks2[j]);
            assert(b >= p);
            if b > p {
                assert(chars_le(ks[p], ks[b]) && ks[p] != ks[b]);
                lemma_chars_le_transitive(e.0, ks[p], ks[b]);
                if e.0 == ks[b] {
                    lemma_chars_le_antisymmetric(e.0, ks[p]);
                }
            } else {
                assert(!found);
            }
        } else {
            assert(j == p && i < p);
            assert(ks[i] == ks2[i]);
            lemma_chars_le_total(e.0, ks[i]);
            if ks[i] == e.0 {
                crate::text::lemma_chars_le_reflexive(e.0);
            }
        }
    }
    assert forall|i: int| 0 <= i < s2.len() implies strictly_sorted(#[trigger] s2[i].1) by {
        if i != p {
            let a = if found || i < p { i } else { i - 1 };
            assert(s2[i] == s[a]);
        }
    }
    lemma_as_map(s);
    lemma_as_map(s2);
    let m = as_map(s).insert(e.0, e.1.to_set());
    assert forall|k: Seq<char>| as_map(s2).dom().contains(k) <==> m.dom().contains(k) by {
        if as_map(s2).dom().contains(k) && k != e.0 {
            let i = choose|i: int| 0 <= i < s2.len() && (#[trigger] s2[i]).0 == k;
            let a = if found || i < p { i } else { i - 1 };
            assert(s[a].0 == k);
        }
        if m.dom().contains(k) {
            if k == e.0 {
                assert(s2[p].0 == k);
            } else {
                let a = choose|a: int| 0 <= a < s.len() && (#[trigger] s[a]).0 == k;
                if found {
                    assert(a != p);
                    assert(s2[a].0 == k);
                } else if a < p {
                    assert(s2[a].0 == k);
                } else {
                    assert(s2[a + 1].0 == k);
                }
            }
        }
    }
    assert forall|k: Seq<char>| as_map(s2).dom().contains(k) implies as_map(s2)[k] == m[k] by {
        let i = choose|i: int| 0 <= i < s2.len() && (#[trigger] s2[i]).0 == k;
        if i != p {
            let a = if found || i < p { i } else { i - 1 };
            assert(s[a] == s2[i]);
            assert(k != e.0) by {
                assert(ks2[i] == k && ks2[p] == e.0);
                assert(s2[p] == e);
            }
        }
    }
    assert(as_map(s2) =~= m);
}

impl GroupMap {
    /// Puts a group with the given set of backup names into the map (replacing the set
    /// that the map held for it).
    pub fn set_group(&mut self, name: &str, backups: Vec<String>)
        requires
            map_wf(old(self)@),
            strictly_sorted(strings_view(backups@)),
        ensures
            map_wf(final(self)@),
            as_map(final(self)@) == as_map(old(self)@).insert(name@, strings_view(backups@).to_set()),
    {
        let (p, found) = self.find(name);
        let ghost e = (name@, strings_view(backups@));
        let ghost s = self@;
        let entry = (String::from_str(name), backups);
        if found {
            self.entries.set(p, entry);
            assert(self@ =~= s.update(p as int, e));
        } else {
            self.entries.insert(p, entry);
            assert(self@ =~= s.insert(p as int, e));
        }
        proof {
            lemma_put(s, p as int, found, e);
        }
    }

    /// A copy of the set of backup names of a group (empty if the map does not hold it).
    pub fn backups_of(&self, name: &str) -> (r: Vec<String>)
        requires
            map_wf(self@),
        ensures
            strictly_sorted(strings_view(r@)),
            strings_view(r@).to_set() == (if as_map(self@).dom().contains(name@) {
                as_map(self@)[name@]
            } else {
                Set::empty()
            }),
    {
        proof {
            lemma_as_map(self@);
        }
        let present = self.contains_key(name);
        let (p, found) = self.find(name);
        if found {
            let r = copy_strings(&self.entries[p].1);
            proof {
                assert(self@[p as int].0 == keys_of(self@)[p as int]);
                assert(self@[p as int].1 == strings_view(self.entries@[p as int].1@));
            }
            r
        } else {
            let r: Vec<String> = Vec::new();
            proof {
                assert(strings_view(r@) =~= Seq::empty());
                assert(strings_view(r@).to_set() =~= Set::empty());
                if present {
                    let i = choose|i: int| 0 <= i < self@.len() && (#[trigger] self@[i]).0 == name@;
                    assert(keys_of(self@)[i] == name@);
                    if i < p {
                        lemma_chars_le_total(name@, keys_of(self@)[i]);
                        crate::text::lemma_chars_le_reflexive(name@);
                    } else if i > p {
                        lemma_chars_le_transitive(name@, keys_of(self@)[p as int], keys_of(self@)[i]);
                        lemma_chars_le_antisymmetric(name@, keys_of(self@)[p as int]);
                    }
                }
            }
            r
        }
    }

    /// Adds backup names to the set of a group (creating the group if the map does not hold
    /// it).
    pub fn add_backups(&mut self, name: &str, names: &Vec<String>)
        requires
            map_wf(old(self)@),
        ensures
            map_wf(final(self)@),
            as_map(final(self)@) == as_map(old(self)@).insert(name@,
                (if as_map(old(self)@).dom().contains(name@) { as_map(old(self)@)[name@] } else { Set::empty() })
                    + strings_view(names@).to_set()),
    {
        let mut set = self.backups_of(name);
        let ghost base = strings_view(set@).to_set();
        let mut i: usize = 0;
        while i < names.len()
            invariant
                i <= names@.len(),
                strictly_sorted(strings_view(set@)),
                strings_view(set@).to_set() == base + strings_view(names@).take(i as int).to_set(),
            decreases names@.len() - i,
        {
            let ghost before = strings_view(set@).to_set();
            insert_sorted_unique(&mut set, names[i].as_str());
            proof {
                let t = strings_view(names@).take(i + 1);
                assert(t =~= strings_view(names@).take(i as int).push(names@[i as int]@));
                assert(t.to_set() =~= strings_view(names@).take(i as int).to_set().insert(names@[i as int]@)) by {
                    broadcast use vstd::seq_lib::group_seq_properties;
                }
                assert(strings_view(set@).to_set() =~= base + t.to_set());
            }
            i += 1;
        }
        assert(strings_view(names@).take(i as int) =~= strings_view(names@));
        self.set_group(name, set);
    }
}

/// The backup names of a group.
pub open spec fn backup_names(g: BackupGroup) -> Seq<Seq<char>> {
    g.backups@.map_values(|b: crate::storage::backup::Backup| b.name@)
}

/// Backup groups by name, each with the set of its backup names (a later group of a name
/// replaces an earlier one).
pub open spec fn mapping_spec(groups: Seq<BackupGroup>) -> Map<Seq<char>, Set<Seq<char>>>
    decreases groups.len(),
{
    if groups.len() == 0 {
        Map::empty()
    } else {
        mapping_spec(groups.drop_last()).insert(groups.last().name@, backup_names(groups.last()).to_set())
    }
}

/// The backups of the given groups added to a map of groups.
pub open spec fn merge_spec(m: Map<Seq<char>, Set<Seq<char>>>, groups: Seq<BackupGroup>) -> Map<Seq<char>, Set<Seq<char>>>
    decreases groups.len(),
{
    if groups.len() == 0 {
        m
    } else {
        let before = merge_spec(m, groups.drop_last());
        let name = groups.last().name@;
        before.insert(name, (if before.dom().contains(name) { before[name] } else { Set::empty() })
            + backup_names(groups.last()).to_set())
    }
}

/// The set of backup names of a group, in strictly increasing order.
fn backup_name_set(g: &BackupGroup) -> (r: Vec<String>)
    ensures
        strictly_sorted(strings_view(r@)),
        strings_view(r@).to_set() == backup_names(*g).to_set(),
{
    let mut r: Vec<String> = Vec::new();
    let mut i: usize = 0;
    assert(strings_view(r@).to_set() =~= Set::empty());
    assert(backup_names(*g).take(0).to_set() =~= Set::empty());
    while i < g.backups.len()
        invariant
            i <= g.backups@.len(),
            strictly_sorted(strings_view(r@)),
            strings_view(r@).to_set() == backup_names(*g).take(i as int).to_set(),
        decreases g.backups@.len() - i,
    {
        insert_sorted_unique(&mut r, g.backups[i].name.as_str());
        proof {
            let t = backup_names(*g).take(i + 1);
            assert(t =~= backup_names(*g).take(i as int).push(g.backups@[i as int].name@));
            assert(t.to_set() =~= backup_names(*g).take(i as int).to_set().insert(g.backups@[i as int].name@)) by {
                broadcast use vstd::seq_lib::group_seq_properties;
            }
        }
        i += 1;
    }
    assert(backup_names(*g).take(i as int) =~= backup_names(*g));
    r
}

/// Backup groups by name with the sets of their backup names.
pub fn get_group_to_backups_mapping(groups: &[BackupGroup]) -> (r: GroupMap)
    ensures
        map_wf(r@),
        as_map(r@) == mapping_spec(groups@),
{
    let mut r = GroupMap::new();
    let mut i: usize = 0;
    assert(as_map(r@) =~= Map::empty());
    while i < groups.len()
        invariant
            i <= groups@.len(),
            map_wf(r@),
            as_map(r@) == mapping_spec(groups@.take(i as int)),
        decreases groups@.len() - i,
    {
        let set = backup_name_set(&groups[i]);
        r.set_group(groups[i].name.as_str(), set);
        proof {
            assert(groups@.take(i + 1).drop_last() =~= groups@.take(i as int));
        }
        i += 1;
    }
    assert(groups@.take(i as int) =~= groups@);
    r
}

/// The number of entries that have some backups.
pub open spec fn nonempty_count(s: GroupSeq) -> nat
    decreases s.len(),
{
    if s.len() == 0 {
        0
    } else {
        nonempty_count(s.drop_last()) + if s.last().1.len() > 0 { 1nat } else { 0nat }
    }
}

/// The position of the `n`-th group with backups, counted from the end (`n` at least one).
pub open spec fn cut_point(s: GroupSeq, n: nat) -> Option<int>
    decreases s.len(),
{
    if s.len() == 0 {
        None
    } else if s.last().1.len() > 0 {
        if n <= 1 {
            Some(s.len() - 1)
        } else {
            cut_point(s.drop_last(), (n - 1) as nat)
        }
    } else {
        cut_point(s.drop_last(), n)
    }
}

/// The groups to keep of at most `max_groups`: if there are more, those from the one that
/// leaves `max_groups` groups with backups (at least one) at the end.
pub open spec fn trim_spec(s: GroupSeq, max_groups: nat) -> GroupSeq {
    if s.len() <= max_groups {
        s
    } else {
        match cut_point(s, if max_groups == 0 { 1 } else { max_groups }) {
            Some(i) => s.skip(i),
            None => s,
        }
    }
}

/// A cut point lies within the groups.
pub proof fn lemma_cut_point(s: GroupSeq, n: nat)
    ensures
        cut_point(s, n) matches Some(i) ==> 0 <= i < s.len(),
    decreases s.len(),
{
    if s.len() > 0 {
        if s.last().1.len() > 0 {
            if n > 1 {
                lemma_cut_point(s.drop_last(), (n - 1) as nat);
            }
        } else {
            lemma_cut_point(s.drop_last(), n);
        }
    }
}

/// A strictly sorted map stays so without its first groups.
pub proof fn lemma_skip_wf(s: GroupSeq, i: int)
    requires
        map_wf(s),
        0 <= i <= s.len(),
    ensures
        map_wf(s.skip(i)),
{
    let t = s.skip(i);
    assert forall|a: int, b: int| 0 <= a < b < keys_of(t).len() implies chars_le(#[trigger] keys_of(t)[a], #[trigger] keys_of(t)[b]) && keys_of(t)[a] != keys_of(t)[b] by {
        assert(keys_of(t)[a] == keys_of(s)[a + i] && keys_of(t)[b] == keys_of(s)[b + i]);
    }
    assert forall|a: int| 0 <= a < t.len() implies strictly_sorted(#[trigger] t[a].1) by {
        assert(t[a] == s[a + i]);
    }
}

impl GroupMap {
    /// Keeps at most `max_groups` groups (see `trim_spec`).
    pub fn trim(&mut self, max_groups: usize)
        requires
            map_wf(old(self)@),
        ensures
            map_wf(final(self)@),
            final(self)@ == trim_spec(old(self)@, max_groups as nat),
    {
        if self.entries.len() <= max_groups {
            return;
        }
        let ghost s = self@;
        let n: usize = if max_groups == 0 { 1 } else { max_groups };
        let mut count: usize = 0;
        let mut k = self.entries.len();
        let mut cut: Option<usize> = None;
        assert(s.take(k as int) =~= s);
        while k > 0
            invariant_except_break
                cut is None,
                cut_point(s, n as nat) == cut_point(s.take(k as int), (n - count) as nat),
                count < n,
            invariant
                k <= s.len(),
                s == self@,
                n >= 1,
            ensures
                cut matches Some(c) ==> cut_point(s, n as nat) == Some(c as int),
                cut is None ==> cut_point(s, n as nat) is None,
            decreases k,
        {
            proof {
                let t = s.take(k as int);
                assert(t.drop_last() =~= s.take(k - 1));
                assert(t.last() == self@[k - 1]);
                assert(self@[k - 1].1.len() == self.entries@[k - 1].1@.len());
            }
            if self.entries[k - 1].1.len() > 0 {
                count += 1;
                if count >= n {
                    cut = Some(k - 1);
                    break;
                }
            }
            k -= 1;
        }
        if let Some(c) = cut {
            proof {
                lemma_cut_point(s, n as nat);
            }
            let kept = self.entries.split_off(c);
            self.entries = kept;
            assert(self@ =~= s.skip(c as int));
            proof {
                lemma_skip_wf(s, c as int);
            }
        }
    }
}

/// The backup groups that the cloud should hold, with their backups: those of both sides,
/// at most `max_groups` (see `trim_spec`).
pub fn get_target_backup_groups(local_groups: &[BackupGroup], cloud_groups: &[BackupGroup], max_groups: usize) -> (r: GroupMap)
    ensures
        map_wf(r@),
        exists|all: GroupSeq| #![trigger as_map(all)]
            map_wf(all) && as_map(all) == merge_spec(mapping_spec(local_groups@), cloud_groups@)
            && r@ == trim_spec(all, max_groups as nat),
{
    let mut r = get_group_to_backups_mapping(local_groups);
    let mut i: usize = 0;
    while i < cloud_groups.len()
        invariant
            i <= cloud_groups@.len(),
            map_wf(r@),
            as_map(r@) == merge_spec(mapping_spec(local_groups@), cloud_groups@.take(i as int)),
        decreases cloud_groups@.len() - i,
    {
        let names = backup_name_set(&cloud_groups[i]);
        r.add_backups(cloud_groups[i].name.as_str(), &names);
        proof {
            assert(cloud_groups@.take(i + 1).drop_last() =~= cloud_groups@.take(i as int));
        }
        i += 1;
    }
    assert(cloud_groups@.take(i as int) =~= cloud_groups@);
    let ghost all = r@;
    r.trim(max_groups);
    r
}

/// The number of groups that hold some backups.
pub open spec fn groups_with_backups(groups: Seq<BackupGroup>) -> nat
    decreases groups.len(),
{
    if groups.len() == 0 {
        0
    } else {
        groups_with_backups(groups.drop_last()) + if groups.last().backups@.len() > 0 { 1nat } else { 0nat }
    }
}

/// Whether the cloud holds more backup groups than there are local groups with backups,
/// while fewer than two of those are left.
pub open spec fn groups_mismatch(local_groups: Seq<BackupGroup>, cloud_groups: Seq<BackupGroup>) -> bool {
    groups_with_backups(local_groups) < 2 && cloud_groups.len() > groups_with_backups(local_groups)
}

/// The message of a cloud that holds more than it should.
pub open spec fn possible_corruption_message() -> Seq<char> {
    "A possible backup corruption: Cloud contains more backup groups than stored locally"@
}

/// A cloud that holds more backup groups than there are local groups with backups, while
/// fewer than two of those are left, points at lost local backups.
pub fn check_backup_groups(local_groups: &[BackupGroup], cloud_groups: &[BackupGroup]) -> (r: Result<(), String>)
    ensures
        r is Err <==> groups_mismatch(local_groups@, cloud_groups@),
        r matches Err(e) ==> e@ == possible_corruption_message(),
{
    let mut count: usize = 0;
    let mut i: usize = 0;
    while i < local_groups.len()
        invariant
            i <= local_groups@.len(),
            count == groups_with_backups(local_groups@.take(i as int)),
            count <= i,
        decreases local_groups@.len() - i,
    {
        proof {
            assert(local_groups@.take(i + 1).drop_last() =~= local_groups@.take(i as int));
        }
        if local_groups[i].backups.len() > 0 {
            count += 1;
        }
        i += 1;
    }
    assert(local_groups@.take(i as int) =~= local_groups@);
    if count < 2 && cloud_groups.len() > count {
        return Err(String::from_str("A possible backup corruption: Cloud contains more backup groups than stored locally"));
    }
    Ok(())
}

/// The uploads to a cloud group: whether the group has to be created first, and the backups
/// to upload.
pub struct GroupUploads {
    pub name: String,
    pub create: bool,
    pub backups: Vec<String>,
}

/// A group's uploads as values.
pub type GroupUploadsView = (Seq<char>, bool, Seq<Seq<char>>);

impl View for GroupUploads {
    type V = GroupUploadsView;

    open spec fn view(&self) -> GroupUploadsView {
        (self.name@, self.create, strings_view(self.backups@))
    }
}

/// Whether the cloud holds a backup of a group.
pub open spec fn cloud_has(cloud: Map<Seq<char>, Set<Seq<char>>>, group: Seq<char>, backup: Seq<char>) -> bool {
    cloud.dom().contains(group) && cloud[group].contains(backup)
}

/// The backups of a group that the cloud lacks, in their order.
pub open spec fn missing_backups(cloud: Map<Seq<char>, Set<Seq<char>>>, group: Seq<char>, backups: Seq<Seq<char>>) -> Seq<Seq<char>>
    decreases backups.len(),
{
    if backups.len() == 0 {
        seq![]
    } else {
        let m = missing_backups(cloud, group, backups.drop_last());
        if cloud_has(cloud, group, backups.last()) { m } else { m.push(backups.last()) }
    }
}

/// What to upload: for each target group with backups, in order, whether to create it (the
/// cloud lacks it) and the backups that the cloud lacks.
pub open spec fn plan_spec(targets: GroupSeq, cloud: Map<Seq<char>, Set<Seq<char>>>) -> Seq<GroupUploadsView>
    decreases targets.len(),
{
    if targets.len() == 0 {
        seq![]
    } else {
        let p = plan_spec(targets.drop_last(), cloud);
        let (name, backups) = targets.last();
        if backups.len() == 0 {
            p
        } else {
            p.push((name, !cloud.dom().contains(name), missing_backups(cloud, name, backups)))
        }
    }
}

/// The cloud groups that are no target, in order.
pub open spec fn deletions_spec(cloud: GroupSeq, targets: Map<Seq<char>, Set<Seq<char>>>) -> Seq<Seq<char>>
    decreases cloud.len(),
{
    if cloud.len() == 0 {
        seq![]
    } else {
        let d = deletions_spec(cloud.drop_last(), targets);
        if targets.dom().contains(cloud.last().0) { d } else { d.push(cloud.last().0) }
    }
}

/// The backups of a group that the cloud lacks.
fn missing_of(cloud: &GroupMap, group: &str, backups: &Vec<String>) -> (r: Vec<String>)
    requires
        map_wf(cloud@),
    ensures
        strings_view(r@) == missing_backups(as_map(cloud@), group@, strings_view(backups@)),
{
    let present = cloud.contains_key(group);
    let have = cloud.backups_of(group);
    let mut r: Vec<String> = Vec::new();
    let mut i: usize = 0;
    assert(strings_view(r@) =~= missing_backups(as_map(cloud@), group@, strings_view(backups@).take(0)));
    while i < backups.len()
        invariant
            i <= backups@.len(),
            present == as_map(cloud@).dom().contains(group@),
            strictly_sorted(strings_view(have@)),
            strings_view(have@).to_set() == (if present { as_map(cloud@)[group@] } else { Set::empty() }),
            strings_view(r@) == missing_backups(as_map(cloud@), group@, strings_view(backups@).take(i as int)),
        decreases backups@.len() - i,
    {
        let mut found = false;
        let mut j: usize = 0;
        while j < have.len()
            invariant
                i < backups@.len(),
                j <= have@.len(),
                found <==> exists|k: int| 0 <= k < j && strings_view(have@)[k] == backups@[i as int]@,
            decreases have@.len() - j,
        {
            let eq = str_eq(have[j].as_str(), backups[i].as_str());
            if eq {
                found = true;
            }
            proof {
                assert(strings_view(have@)[j as int] == have@[j as int]@);
            }
            j += 1;
        }
        let ghost t = strings_view(backups@).take(i + 1);
        proof {
            assert(t.drop_last() =~= strings_view(backups@).take(i as int));
            assert(t.last() == backups@[i as int]@);
            assert(found == cloud_has(as_map(cloud@), group@, backups@[i as int]@)) by {
                if found {
                    let k = choose|k: int| 0 <= k < j && strings_view(have@)[k] == backups@[i as int]@;
                    assert(strings_view(have@).to_set().contains(strings_view(have@)[k]));
                }
                if cloud_has(as_map(cloud@), group@, backups@[i as int]@) {
                    assert(strings_view(have@).to_set().contains(backups@[i as int]@));
                }
            }
        }
        if !found {
            let c = String::from_str(backups[i].as_str());
            let ghost before = strings_view(r@);
            r.push(c);
            assert(strings_view(r@) =~= before.push(c@));
        }
        i += 1;
    }
    assert(strings_view(backups@).take(i as int) =~= strings_view(backups@));
    r
}

/// The upload plan (see `plan_spec`).
pub fn plan_uploads(targets: &GroupMap, cloud: &GroupMap) -> (r: Vec<GroupUploads>)
    requires
        map_wf(targets@),
        map_wf(cloud@),
    ensures
        r@.map_values(|g: GroupUploads| g@) == plan_spec(targets@, as_map(cloud@)),
{
    let mut r: Vec<GroupUploads> = Vec::new();
    let mut i: usize = 0;
    assert(r@.map_values(|g: GroupUploads| g@) =~= plan_spec(targets@.take(0), as_map(cloud@)));
    while i < targets.entries.len()
        invariant
            i <= targets@.len(),
            map_wf(cloud@),
            r@.map_values(|g: GroupUploads| g@) == plan_spec(targets@.take(i as int), as_map(cloud@)),
        decreases targets@.len() - i,
    {
        let ghost t = targets@.take(i + 1);
        proof {
            assert(t.drop_last() =~= targets@.take(i as int));
            assert(t.last() == targets@[i as int]);
        }
        let entry = &targets.entries[i];
        if entry.1.len() > 0 {
            let create = !cloud.contains_key(entry.0.as_str());
            let backups = missing_of(cloud, entry.0.as_str(), &entry.1);
            let g = GroupUploads { name: String::from_str(entry.0.as_str()), create, backups };
            let ghost before = r@.map_values(|g: GroupUploads| g@);
            r.push(g);
            assert(r@.map_values(|g: GroupUploads| g@) =~= before.push(g@));
        }
        i += 1;
    }
    assert(targets@.take(i as int) =~= targets@);
    r
}

/// The cloud groups to delete (see `deletions_spec`).
pub fn plan_deletions(cloud: &GroupMap, targets: &GroupMap) -> (r: Vec<String>)
    requires
        map_wf(targets@),
    ensures
        strings_view(r@) == deletions_spec(cloud@, as_map(targets@)),
{
    let mut r: Vec<String> = Vec::new();
    let mut i: usize = 0;
    assert(strings_view(r@) =~= deletions_spec(cloud@.take(0), as_map(targets@)));
    while i < cloud.entries.len()
        invariant
            i <= cloud@.len(),
            map_wf(targets@),
            strings_view(r@) == deletions_spec(cloud@.take(i as int), as_map(targets@)),
        decreases cloud@.len() - i,
    {
        let ghost t = cloud@.take(i + 1);
        proof {
            assert(t.drop_last() =~= cloud@.take(i as int));
            assert(t.last() == cloud@[i as int]);
        }
        if !targets.contains_key(cloud.entries[i].0.as_str()) {
            let c = String::from_str(cloud.entries[i].0.as_str());
            let ghost before = strings_view(r@);
            r.push(c);
            assert(strings_view(r@) =~= before.push(c@));
        }
        i += 1;
    }
    assert(cloud@.take(i as int) =~= cloud@);
    r
}

/// What the run waits for the outcome of.
#[derive(Clone, Copy, Debug, PartialEq, Eq, Structural)]
pub enum Pending {
    Nothing,
    Create,
    Upload,
    Delete,
}

/// What the program is to do next for the run.
pub enum SyncAction {
    /// Create a backup group on the cloud.
    CreateGroup { group: String },
    /// Upload a local backup (at the given local path) to a cloud group.
    Upload { group: String, backup: String, path: String },
    /// Delete a backup group from the cloud.
    DeleteGroup { group: String },
    /// The run is over; whether nothing went wrong.
    Finish { ok: bool },
}

/// An action as values.
pub enum ActionView {
    CreateGroup(Seq<char>),
    Upload(Seq<char>, Seq<char>, Seq<char>),
    DeleteGroup(Seq<char>),
    Finish(bool),
}

impl View for SyncAction {
    type V = ActionView;

    open spec fn view(&self) -> ActionView {
        match self {
            SyncAction::CreateGroup { group } => ActionView::CreateGroup(group@),
            SyncAction::Upload { group, backup, path } => ActionView::Upload(group@, backup@, path@),
            SyncAction::DeleteGroup { group } => ActionView::DeleteGroup(group@),
            SyncAction::Finish { ok } => ActionView::Finish(*ok),
        }
    }
}

/// The state of a run as values.
pub struct RunView {
    pub plan: Seq<GroupUploadsView>,
    pub deletions: Seq<Seq<char>>,
    pub local_root: Seq<char>,
    /// The name of the cloud, as messages name it.
    pub cloud_name: Seq<char>,
    pub group: int,
    pub backup: int,
    pub created: bool,
    pub deletion: int,
    pub ok: bool,
    pub pending: Pending,
}

/// The local path of a backup (its directory in its group's directory).
pub open spec fn local_backup_path(root: Seq<char>, group: Seq<char>, backup: Seq<char>) -> Seq<char> {
    crate::storage::trim_trailing_slashes(root) + "/"@ + group + "/"@ + backup
}

/// The run after the outcome of the action it waited for: a group that could not be
/// created is skipped; a failed creation or upload spoils the run; a failed deletion does
/// not.
pub open spec fn after_outcome(v: RunView, failed: bool) -> RunView {
    match v.pending {
        Pending::Nothing => v,
        Pending::Create => if failed {
            RunView { group: v.group + 1, backup: 0, created: false, ok: false, pending: Pending::Nothing, ..v }
        } else {
            RunView { created: true, pending: Pending::Nothing, ..v }
        },
        Pending::Upload => RunView { backup: v.backup + 1, ok: v.ok && !failed, pending: Pending::Nothing, ..v },
        Pending::Delete => RunView { deletion: v.deletion + 1, pending: Pending::Nothing, ..v },
    }
}

/// How much is left of a run.
pub open spec fn run_measure(v: RunView) -> nat {
    (if v.group < v.plan.len() { (v.plan.len() - v.group) as nat } else { 0nat })
        + (if v.deletion < v.deletions.len() { (v.deletions.len() - v.deletion) as nat } else { 0nat })
}

/// The next action of a run and the state that waits for its outcome: first each group of
/// the plan (created if needed, then its uploads), then the deletions, which are skipped if
/// anything went wrong.
pub open spec fn advance(v: RunView) -> (RunView, ActionView)
    decreases run_measure(v), (if 0 <= v.group < v.plan.len() { v.plan[v.group].2.len() - v.backup } else { 0 }),
{
    if 0 <= v.group < v.plan.len() {
        let g = v.plan[v.group];
        if g.1 && !v.created {
            (RunView { pending: Pending::Create, ..v }, ActionView::CreateGroup(g.0))
        } else if 0 <= v.backup < g.2.len() {
            (RunView { pending: Pending::Upload, ..v },
                ActionView::Upload(g.0, g.2[v.backup], local_backup_path(v.local_root, g.0, g.2[v.backup])))
        } else {
            advance(RunView { group: v.group + 1, backup: 0, created: false, ..v })
        }
    } else if 0 <= v.deletion < v.deletions.len() {
        if !v.ok {
            advance(RunView { deletion: v.deletion + 1, ..v })
        } else {
            (RunView { pending: Pending::Delete, ..v }, ActionView::DeleteGroup(v.deletions[v.deletion]))
        }
    } else {
        (RunView { pending: Pending::Nothing, ..v }, ActionView::Finish(v.ok))
    }
}

/// A run of a sync: it hands out actions, and takes the outcome of each.
pub struct SyncRun {
    plan: Vec<GroupUploads>,
    deletions: Vec<String>,
    local_root: String,
    cloud_name: String,
    group: usize,
    backup: usize,
    created: bool,
    deletion: usize,
    ok: bool,
    pending: Pending,
}

impl View for SyncRun {
    type V = RunView;

    closed spec fn view(&self) -> RunView {
        RunView {
            plan: self.plan@.map_values(|g: GroupUploads| g@),
            deletions: strings_view(self.deletions@),
            local_root: self.local_root@,
            cloud_name: self.cloud_name@,
            group: self.group as int,
            backup: self.backup as int,
            created: self.created,
            deletion: self.deletion as int,
            ok: self.ok,
            pending: self.pending,
        }
    }
}

/// Where a run at its start is.
pub open spec fn run_start(
    plan: Seq<GroupUploadsView>,
    deletions: Seq<Seq<char>>,
    local_root: Seq<char>,
    cloud_name: Seq<char>,
    ok: bool,
) -> RunView {
    RunView { plan, deletions, local_root, cloud_name, group: 0, backup: 0, created: false, deletion: 0, ok, pending: Pending::Nothing }
}

impl SyncRun {
    #[verifier::type_invariant]
    spec fn inv(&self) -> bool {
        &&& self.group <= self.plan@.len()
        &&& self.deletion <= self.deletions@.len()
        &&& self.group < self.plan@.len() ==> self.backup <= self.plan@[self.group as int].backups@.len()
        &&& self.pending == Pending::Create ==> self.group < self.plan@.len()
        &&& self.pending == Pending::Upload ==> self.group < self.plan@.len()
            && self.backup < self.plan@[self.group as int].backups@.len()
        &&& self.pending == Pending::Delete ==> self.deletion < self.deletions@.len()
    }

    /// A sync of the local backup groups to the cloud ones: checks them (logging the
    /// problem it finds), and plans the uploads and deletions.
    pub fn new(
        local_groups: &[BackupGroup],
        cloud_groups: &[BackupGroup],
        ok: bool,
        max_backup_groups: usize,
        local_root: &str,
        cloud_name: &str,
        log: &mut Vec<crate::logging::LogRecord>,
    ) -> (r: SyncRun)
        ensures
            crate::logging::extends(final(log)@, old(log)@),
            exists|all: GroupSeq, cloud: GroupSeq| #![trigger as_map(all), as_map(cloud)] {
                let targets = trim_spec(all, max_backup_groups as nat);
                &&& map_wf(all)
                &&& as_map(all) == merge_spec(mapping_spec(local_groups@), cloud_groups@)
                &&& map_wf(cloud)
                &&& as_map(cloud) == mapping_spec(cloud_groups@)
                &&& r@ == run_start(plan_spec(targets, as_map(cloud)), deletions_spec(cloud, as_map(targets)), local_root@,
                    cloud_name@, ok && !groups_mismatch(local_groups@, cloud_groups@))
            },
    {
        let mut ok = ok;
        match check_backup_groups(local_groups, cloud_groups) {
            Ok(()) => {},
            Err(e) => {
                let mut m = e;
                m.append(".");
                crate::logging::log(log, crate::logging::Level::Error, m);
                ok = false;
            },
        }
        let targets = get_target_backup_groups(local_groups, cloud_groups, max_backup_groups);
        let cloud = get_group_to_backups_mapping(cloud_groups);
        let plan = plan_uploads(&targets, &cloud);
        let deletions = plan_deletions(&cloud, &targets);
        SyncRun {
            plan,
            deletions,
            local_root: String::from_str(local_root),
            cloud_name: String::from_str(cloud_name),
            group: 0,
            backup: 0,
            created: false,
            deletion: 0,
            ok,
            pending: Pending::Nothing,
        }
    }
}

impl SyncRun {
    /// The next action of the run, given the outcome of the action it waited for (any
    /// outcome if it waited for none): see `after_outcome` and `advance`. Failures and
    /// progress are logged.
    pub fn next(&mut self, outcome: Result<(), String>, log: &mut Vec<crate::logging::LogRecord>) -> (r: SyncAction)
        ensures
            crate::logging::extends(final(log)@, old(log)@),
            (final(self)@, r@) == advance(after_outcome(old(self)@, outcome is Err)),
    {
        proof {
            use_type_invariant(&*self);
        }
        let ghost target = advance(after_outcome(self@, outcome is Err));
        let plan_len = self.plan.len();
        let deletions_len = self.deletions.len();
        match self.pending {
            Pending::Nothing => {},
            Pending::Create => {
                self.pending = Pending::Nothing;
                match &outcome {
                    Ok(()) => {
                        self.created = true;
                    },
                    Err(e) => {
                        let mut m = String::from_str("Failed to create ");
                        m.append(debug_str(self.plan[self.group].name.as_str()).as_str());
                        m.append(" backup group on ");
                        m.append(self.cloud_name.as_str());
                        m.append(": ");
                        m.append(e.as_str());
                        m.append(".");
                        crate::logging::log(log, crate::logging::Level::Error, m);
                        self.backup = 0;
                        self.created = false;
                        self.group = self.group + 1;
                        self.ok = false;
                    },
                }
            },
            Pending::Upload => {
                let backups_len = self.plan[self.group].backups.len();
                self.pending = Pending::Nothing;
                if let Err(e) = &outcome {
                    let g = &self.plan[self.group];
                    let path = backup_path_of(self.local_root.as_str(), g.name.as_str(), g.backups[self.backup].as_str());
                    let mut m = String::from_str("Failed to upload ");
                    m.append(debug_str(path.as_str()).as_str());
                    m.append(" backup to ");
                    m.append(self.cloud_name.as_str());
                    m.append(": ");
                    m.append(e.as_str());
                    m.append(".");
                    crate::logging::log(log, crate::logging::Level::Error, m);
                    self.ok = false;
                }
                self.backup = self.backup + 1;
            },
            Pending::Delete => {
                self.pending = Pending::Nothing;
                if let Err(e) = &outcome {
                    let mut m = String::from_str("Failed to delete ");
                    m.append(debug_str(self.deletions[self.deletion].as_str()).as_str());
                    m.append(" backup backup group from ");
                    m.append(self.cloud_name.as_str());
                    m.append(": ");
                    m.append(e.as_str());
                    m.append(".");
                    crate::logging::log(log, crate::logging::Level::Error, m);
                }
                self.deletion = self.deletion + 1;
            },
        }
        assert(advance(self@) == target);
        let mut action: Option<SyncAction> = None;
        loop
            invariant_except_break
                action is None,
                advance(self@) == target,
                self@.pending == Pending::Nothing,
            invariant
                crate::logging::extends(log@, old(log)@),
            ensures
                action matches Some(a) && (self@, a@) == target,
            decreases run_measure(self@), (if 0 <= self@.group < self@.plan.len() {
                self@.plan[self@.group].2.len() - self@.backup } else { 0 }),
        {
            proof {
                use_type_invariant(&*self);
            }
            if self.group < self.plan.len() {
                proof {
                    assert(self@.plan[self.group as int] == self.plan@[self.group as int]@);
                }
                let create = self.plan[self.group].create;
                if create && !self.created {
                    let group = String::from_str(self.plan[self.group].name.as_str());
                    self.pending = Pending::Create;
                    action = Some(SyncAction::CreateGroup { group });
                    break;
                }
                if self.backup < self.plan[self.group].backups.len() {
                    let g = &self.plan[self.group];
                    let group = String::from_str(g.name.as_str());
                    let backup = String::from_str(g.backups[self.backup].as_str());
                    let path = backup_path_of(self.local_root.as_str(), g.name.as_str(), g.backups[self.backup].as_str());
                    proof {
                        assert(self@.plan[self.group as int].2[self.backup as int] == g.backups@[self.backup as int]@);
                    }
                    let mut m = String::from_str("Uploading ");
                    m.append(debug_str(path.as_str()).as_str());
                    m.append(" backup to ");
                    m.append(self.cloud_name.as_str());
                    m.append("...");
                    crate::logging::log(log, crate::logging::Level::Info, m);
                    self.pending = Pending::Upload;
                    action = Some(SyncAction::Upload { group, backup, path });
                    break;
                }
                self.backup = 0;
                self.created = false;
                self.group = self.group + 1;
                continue;
            }
            if self.deletion < self.deletions.len() {
                proof {
                    assert(self@.deletions[self.deletion as int] == self.deletions@[self.deletion as int]@);
                }
                let group = String::from_str(self.deletions[self.deletion].as_str());
                if !self.ok {
                    let mut m = String::from_str("Skipping deletion of ");
                    m.append(debug_str(group.as_str()).as_str());
                    m.append(" backup group from ");
                    m.append(self.cloud_name.as_str());
                    m.append(" because of the errors above.");
                    crate::logging::log(log, crate::logging::Level::Warn, m);
                    self.deletion = self.deletion + 1;
                    continue;
                }
                let mut m = String::from_str("Deleting ");
                m.append(debug_str(group.as_str()).as_str());
                m.append(" backup group from ");
                m.append(self.cloud_name.as_str());
                m.append("...");
                crate::logging::log(log, crate::logging::Level::Info, m);
                self.pending = Pending::Delete;
                action = Some(SyncAction::DeleteGroup { group });
                break;
            }
            action = Some(SyncAction::Finish { ok: self.ok });
            break;
        }
        match action {
            Some(a) => a,
            None => SyncAction::Finish { ok: self.ok },
        }
    }
}

/// The local path of a backup (see `local_backup_path`).
pub fn backup_path_of(root: &str, group: &str, backup: &str) -> (r: String)
    ensures
        r@ == local_backup_path(root@, group@, backup@),
{
    let chars = chars_of(root);
    let mut end = chars.len();
    assert(chars@.take(end as int) =~= chars@);
    while end > 0 && chars[end - 1] == '/'
        invariant
            end <= chars@.len(),
            crate::storage::trim_trailing_slashes(chars@.take(end as int)) == crate::storage::trim_trailing_slashes(root@),
            chars@ == root@,
        decreases end,
    {
        assert(chars@.take(end as int).drop_last() =~= chars@.take(end - 1));
        end -= 1;
    }
    let base = crate::text::sub_vec(chars.as_slice(), 0, end);
    assert(base@ =~= chars@.take(end as int));
    let base = crate::text::string_of(base.as_slice());
    let group_path = crate::text::slash_join(base.as_str(), group);
    crate::text::slash_join(group_path.as_str(), backup)
}

/// A run never recovers from a failure: once something went wrong, it stays so.
pub proof fn lemma_failure_sticks(v: RunView, failed: bool)
    ensures
        after_outcome(v, failed).ok ==> v.ok,
        advance(v).0.ok == v.ok,
    decreases run_measure(v), (if 0 <= v.group < v.plan.len() { v.plan[v.group].2.len() - v.backup } else { 0 }),
{
    if 0 <= v.group < v.plan.len() {
        let g = v.plan[v.group];
        if !(g.1 && !v.created) && !(0 <= v.backup < g.2.len()) {
            lemma_failure_sticks(RunView { group: v.group + 1, backup: 0, created: false, ..v }, failed);
        }
    } else if 0 <= v.deletion < v.deletions.len() && !v.ok {
        lemma_failure_sticks(RunView { deletion: v.deletion + 1, ..v }, failed);
    }
}

/// A run deletes a cloud group only while nothing has gone wrong, and only a group of its
/// deletions.
pub proof fn lemma_deletes_only_when_ok(v: RunView)
    ensures
        advance(v).1 matches ActionView::DeleteGroup(g) ==> v.ok && v.deletions.contains(g),
    decreases run_measure(v), (if 0 <= v.group < v.plan.len() { v.plan[v.group].2.len() - v.backup } else { 0 }),
{
    if 0 <= v.group < v.plan.len() {
        let g = v.plan[v.group];
        if !(g.1 && !v.created) && !(0 <= v.backup < g.2.len()) {
            lemma_deletes_only_when_ok(RunView { group: v.group + 1, backup: 0, created: false, ..v });
        }
    } else if 0 <= v.deletion < v.deletions.len() {
        if !v.ok {
            lemma_deletes_only_when_ok(RunView { deletion: v.deletion + 1, ..v });
        } else {
            assert(v.deletions[v.deletion] == v.deletions[v.deletion]);
        }
    }
}

/// A run uploads only backups of its plan, to their groups, from their local paths.
pub proof fn lemma_uploads_only_planned(v: RunView)
    ensures
        advance(v).1 matches ActionView::Upload(g, b, p) ==> exists|k: int, j: int|
            0 <= k < v.plan.len() && 0 <= j < v.plan[k].2.len() && #[trigger] v.plan[k].2[j] == b && v.plan[k].0 == g
            && p == local_backup_path(v.local_root, g, b),
    decreases run_measure(v), (if 0 <= v.group < v.plan.len() { v.plan[v.group].2.len() - v.backup } else { 0 }),
{
    if 0 <= v.group < v.plan.len() {
        let g = v.plan[v.group];
        if !(g.1 && !v.created) {
            if 0 <= v.backup < g.2.len() {
                assert(v.plan[v.group].2[v.backup] == g.2[v.backup]);
            } else {
                lemma_uploads_only_planned(RunView { group: v.group + 1, backup: 0, created: false, ..v });
            }
        }
    } else if 0 <= v.deletion < v.deletions.len() && !v.ok {
        lemma_uploads_only_planned(RunView { deletion: v.deletion + 1, ..v });
    }
}

/// The deletions never hold a target group.
pub proof fn lemma_never_deletes_targets(cloud: GroupSeq, targets: Map<Seq<char>, Set<Seq<char>>>, g: Seq<char>)
    ensures
        deletions_spec(cloud, targets).contains(g) ==> !targets.dom().contains(g) && keys_of(cloud).contains(g),
    decreases cloud.len(),
{
    if cloud.len() > 0 {
        lemma_never_deletes_targets(cloud.drop_last(), targets, g);
        let d = deletions_spec(cloud.drop_last(), targets);
        if deletions_spec(cloud, targets).contains(g) {
            if d.contains(g) {
                let k = choose|k: int| 0 <= k < keys_of(cloud.drop_last()).len() && keys_of(cloud.drop_last())[k] == g;
                assert(keys_of(cloud)[k] == g);
            } else {
                assert(g == cloud.last().0);
                assert(keys_of(cloud)[cloud.len() - 1] == g);
            }
        }
    }
}

/// The backups that the cloud lacks are backups of the group that the cloud lacks.
pub proof fn lemma_missing_backups(cloud: Map<Seq<char>, Set<Seq<char>>>, group: Seq<char>, backups: Seq<Seq<char>>, b: Seq<char>)
    ensures
        missing_backups(cloud, group, backups).contains(b) <==> backups.contains(b) && !cloud_has(cloud, group, b),
    decreases backups.len(),
{
    if backups.len() > 0 {
        lemma_missing_backups(cloud, group, backups.drop_last(), b);
        if backups.contains(b) && !cloud_has(cloud, group, b) {
            let k = choose|k: int| 0 <= k < backups.len() && backups[k] == b;
            if k < backups.len() - 1 {
                assert(backups.drop_last()[k] == b);
                let m0 = missing_backups(cloud, group, backups.drop_last());
                let i = choose|i: int| 0 <= i < m0.len() && m0[i] == b;
                if !cloud_has(cloud, group, backups.last()) {
                    assert(m0.push(backups.last())[i] == b);
                }
            } else {
                let m0 = missing_backups(cloud, group, backups.drop_last());
                assert(m0.push(backups.last())[m0.len() as int] == b);
            }
        }
        if missing_backups(cloud, group, backups).contains(b) {
            if missing_backups(cloud, group, backups.drop_last()).contains(b) {
                let k = choose|k: int| 0 <= k < backups.drop_last().len() && backups.drop_last()[k] == b;
                assert(backups[k] == b);
            } else {
                assert(backups[backups.len() - 1] == b);
            }
        }
    }
}

/// The plan uploads to a group only backups that the targets hold of it and the cloud lacks;
/// it creates a group only when the cloud lacks it.
pub proof fn lemma_plan_uploads_missing(targets: GroupSeq, cloud: Map<Seq<char>, Set<Seq<char>>>, k: int, b: Seq<char>)
    requires
        0 <= k < plan_spec(targets, cloud).len(),
    ensures
        plan_spec(targets, cloud)[k].2.contains(b) ==> !cloud_has(cloud, plan_spec(targets, cloud)[k].0, b)
            && exists|i: int| 0 <= i < targets.len() && (#[trigger] targets[i]).0 == plan_spec(targets, cloud)[k].0
                && targets[i].1.contains(b),
        plan_spec(targets, cloud)[k].1 == !cloud.dom().contains(plan_spec(targets, cloud)[k].0),
    decreases targets.len(),
{
    let p = plan_spec(targets.drop_last(), cloud);
    if k < p.len() {
        lemma_plan_uploads_missing(targets.drop_last(), cloud, k, b);
        if p[k].2.contains(b) {
            let i = choose|i: int| 0 <= i < targets.drop_last().len() && (#[trigger] targets.drop_last()[i]).0 == p[k].0
                && targets.drop_last()[i].1.contains(b);
            assert(targets[i] == targets.drop_last()[i]);
        }
    } else {
        let (name, backups) = targets.last();
        lemma_missing_backups(cloud, name, backups, b);
        assert(targets[targets.len() - 1] == targets.last());
    }
}

/// The upload plan is complete: every backup of a target group that the cloud lacks is
/// planned for upload to that group.
pub proof fn lemma_plan_uploads_complete(targets: GroupSeq, cloud: Map<Seq<char>, Set<Seq<char>>>, i: int, b: Seq<char>)
    requires
        0 <= i < targets.len(),
        targets[i].1.contains(b),
        !cloud_has(cloud, targets[i].0, b),
    ensures
        exists|k: int| 0 <= k < plan_spec(targets, cloud).len()
            && (#[trigger] plan_spec(targets, cloud)[k]).0 == targets[i].0
            && plan_spec(targets, cloud)[k].2.contains(b),
    decreases targets.len(),
{
    let p = plan_spec(targets.drop_last(), cloud);
    if i < targets.len() - 1 {
        assert(targets.drop_last()[i] == targets[i]);
        lemma_plan_uploads_complete(targets.drop_last(), cloud, i, b);
        let k = choose|k: int| 0 <= k < p.len() && (#[trigger] p[k]).0 == targets[i].0 && p[k].2.contains(b);
        assert(plan_spec(targets, cloud)[k] == p[k]);
    } else {
        let (name, backups) = targets.last();
        lemma_missing_backups(cloud, name, backups, b);
        assert(backups.len() > 0);
        assert(plan_spec(targets, cloud)[p.len() as int] == (name, !cloud.dom().contains(name), missing_backups(cloud, name, backups)));
    }
}

/// The number of groups of a group map that hold backups.
pub open spec fn mapped_groups_with_backups(s: GroupSeq) -> nat
    decreases s.len(),
{
    if s.len() == 0 {
        0
    } else {
        mapped_groups_with_backups(s.drop_last()) + if s.last().1.len() > 0 { 1nat } else { 0nat }
    }
}

proof fn lemma_groups_with_backups_bound(s: GroupSeq)
    ensures
        mapped_groups_with_backups(s) <= s.len(),
    decreases s.len(),
{
    if s.len() > 0 {
        lemma_groups_with_backups_bound(s.drop_last());
    }
}

/// Where the cut lies: the groups from it hold `n` groups with backups; without a cut,
/// fewer than `n` groups hold backups.
proof fn lemma_cut_point_count(s: GroupSeq, n: nat)
    requires
        n >= 1,
    ensures
        cut_point(s, n) matches Some(i) ==> 0 <= i < s.len() && mapped_groups_with_backups(s.skip(i)) == n
            && mapped_groups_with_backups(s) >= n,
        cut_point(s, n) is None ==> mapped_groups_with_backups(s) < n,
    decreases s.len(),
{
    if s.len() > 0 {
        let init = s.drop_last();
        if s.last().1.len() > 0 {
            if n <= 1 {
                let t = s.skip(s.len() - 1);
                assert(t.drop_last() =~= Seq::<(Seq<char>, Seq<Seq<char>>)>::empty());
                assert(t.last() == s.last());
                assert(t.len() == 1);
                assert(mapped_groups_with_backups(t.drop_last()) == 0);
                assert(mapped_groups_with_backups(t) == 1);
                assert(mapped_groups_with_backups(s) == mapped_groups_with_backups(init) + 1);
            } else {
                lemma_cut_point_count(init, (n - 1) as nat);
                assert(mapped_groups_with_backups(s) == mapped_groups_with_backups(init) + 1);
                if let Some(i) = cut_point(init, (n - 1) as nat) {
                    assert(s.skip(i).drop_last() =~= init.skip(i));
                    assert(s.skip(i).last() == s.last());
                    assert(mapped_groups_with_backups(s.skip(i)) == mapped_groups_with_backups(init.skip(i)) + 1);
                }
            }
        } else {
            lemma_cut_point_count(init, n);
            assert(mapped_groups_with_backups(s) == mapped_groups_with_backups(init));
            if let Some(i) = cut_point(init, n) {
                assert(s.skip(i).drop_last() =~= init.skip(i));
                assert(s.skip(i).last() == s.last());
                assert(mapped_groups_with_backups(s.skip(i)) == mapped_groups_with_backups(init.skip(i)));
            }
        }
    }
}

/// The groups kept of at most `max_groups` (at least one) are the last groups of all of
/// them, all of them when there are no more than `max_groups`; and as many of them hold
/// backups as `max_groups` allows: `max_groups`, or all that there are if fewer.
pub proof fn lemma_kept_groups(s: GroupSeq, max_groups: nat)
    requires
        max_groups >= 1,
    ensures
        exists|i: int| 0 <= i <= s.len() && trim_spec(s, max_groups) == #[trigger] s.skip(i),
        s.len() <= max_groups ==> trim_spec(s, max_groups) == s,
        mapped_groups_with_backups(trim_spec(s, max_groups)) == if mapped_groups_with_backups(s) < max_groups {
            mapped_groups_with_backups(s)
        } else {
            max_groups
        },
{
    lemma_groups_with_backups_bound(s);
    lemma_cut_point_count(s, max_groups);
    assert(s.skip(0) =~= s);
    if s.len() > max_groups {
        if let Some(i) = cut_point(s, max_groups) {
            assert(trim_spec(s, max_groups) == s.skip(i));
        }
    }
}

} // verus!
