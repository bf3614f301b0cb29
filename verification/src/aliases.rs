use vstd::prelude::*;
use vstd::string::*;

verus! {

/// A device name and the name the user gave it.
pub struct AliasEntry {
    device: String,
    alias: String,
}

/// The names the user gave to devices, at most one per device.
pub struct AliasTable {
    entries: Vec<AliasEntry>,
}

spec fn has_device(entries: Seq<AliasEntry>, d: Seq<char>) -> bool {
    exists|i: int| 0 <= i < entries.len() && #[trigger] entries[i].device@ == d
}

spec fn devices_distinct(entries: Seq<AliasEntry>) -> bool {
    forall|i: int, j: int|
        0 <= i < entries.len() && 0 <= j < entries.len() && i != j ==> #[trigger] entries[i].device@
            != #[trigger] entries[j].device@
}

spec fn alias_map(entries: Seq<AliasEntry>) -> Map<Seq<char>, Seq<char>> {
    Map::new(
        |d: Seq<char>| has_device(entries, d),
        |d: Seq<char>|
            entries[choose|i: int| 0 <= i < entries.len() && #[trigger] entries[i].device@ == d].alias@,
    )
}

/// The name shown for `device`: its alias if it has one, else its own name.
pub open spec fn shown_name(aliases: Map<Seq<char>, Seq<char>>, device: Seq<char>) -> Seq<char> {
    if aliases.contains_key(device) {
        aliases[device]
    } else {
        device
    }
}

/// The aliases after the user renames `device` to `alias`: an empty alias,
/// or the device's own name, drops the alias; anything else becomes it.
pub open spec fn renamed(
    aliases: Map<Seq<char>, Seq<char>>,
    device: Seq<char>,
    alias: Seq<char>,
) -> Map<Seq<char>, Seq<char>> {
    if alias.len() == 0 || alias == device {
        aliases.remove(device)
    } else {
        aliases.insert(device, alias)
    }
}

proof fn lemma_map_at(entries: Seq<AliasEntry>, i: int)
    requires
        devices_distinct(entries),
        0 <= i < entries.len(),
    ensures
        alias_map(entries).contains_key(entries[i].device@),
        alias_map(entries)[entries[i].device@] == entries[i].alias@,
{
    let d = entries[i].device@;
    assert(has_device(entries, d));
    let c = choose|c: int| 0 <= c < entries.len() && #[trigger] entries[c].device@ == d;
    assert(entries[c].device@ == entries[i].device@);
}

impl AliasTable {
    #[verifier::type_invariant]
    spec fn one_alias_per_device(self) -> bool {
        devices_distinct(self.entries@)
    }

    /// The aliases, by device name.
    pub closed spec fn aliases(self) -> Map<Seq<char>, Seq<char>> {
        alias_map(self.entries@)
    }

    /// A table without aliases.
    pub fn new() -> (t: AliasTable)
        ensures
            t.aliases() == Map::<Seq<char>, Seq<char>>::empty(),
    {
        let t = AliasTable { entries: Vec::new() };
        assert(t.aliases() =~= Map::<Seq<char>, Seq<char>>::empty());
        t
    }

    fn position(&self, device: &String) -> (r: Option<usize>)
        ensures
            match r {
                Some(i) => i < self.entries@.len() && self.entries@[i as int].device@ == device@,
                None => !has_device(self.entries@, device@),
            },
    {
        let mut i: usize = 0;
        while i < self.entries.len()
            invariant
                i <= self.entries@.len(),
                forall|j: int| 0 <= j < i ==> #[trigger] self.entries@[j].device@ != device@,
            decreases self.entries@.len() - i,
        {
            if self.entries[i].device == *device {
                return Some(i);
            }
            i = i + 1;
        }
        None
    }

    /// The alias of `device`, if it has one.
    pub fn get(&self, device: &str) -> (r: Option<&String>)
        ensures
            match r {
                Some(a) => self.aliases().contains_key(device@) && self.aliases()[device@] == a@,
                None => !self.aliases().contains_key(device@),
            },
    {
        proof {
            use_type_invariant(self);
        }
        let d = String::from_str(device);
        match self.position(&d) {
            Some(i) => {
                proof {
                    lemma_map_at(self.entries@, i as int);
                }
                Some(&self.entries[i].alias)
            },
            None => None,
        }
    }

    /// The name to show for `device`: its alias, or its own name.
    pub fn display_name(&self, device: &str) -> (s: String)
        ensures
            s@ == shown_name(self.aliases(), device@),
    {
        match self.get(device) {
            Some(a) => a.clone(),
            None => String::from_str(device),
        }
    }

    /// Gives `device` the alias `alias`, replacing any alias it had.
    pub fn insert(&mut self, device: &str, alias: &str)
        ensures
            final(self).aliases() == old(self).aliases().insert(device@, alias@),
    {
        proof {
            use_type_invariant(&*self);
        }
        let d = String::from_str(device);
        let a = String::from_str(alias);
        let pos = self.position(&d);
        let mut taken = AliasTable { entries: Vec::new() };
        std::mem::swap(self, &mut taken);
        let AliasTable { entries: mut entries } = taken;
        let ghost e1 = entries@;
        let entry = AliasEntry { device: d, alias: a };
        match pos {
            Some(i) => {
                entries.set(i, entry);
            },
            None => {
                entries.push(entry);
            },
        }
        proof {
            let e2 = entries@;
            let i = match pos {
                Some(i) => i as int,
                None => e1.len() as int,
            };
            assert(e2[i] == entry);
            assert forall|x: int, y: int|
                0 <= x < e2.len() && 0 <= y < e2.len() && x != y implies #[trigger] e2[x].device@
                != #[trigger] e2[y].device@ by {
                if x != i && y != i {
                    assert(e1[x].device@ != e1[y].device@);
                } else if x == i {
                    assert(e2[y] == e1[y]);
                    if pos is Some {
                        assert(e1[i].device@ != e1[y].device@);
                    }
                } else {
                    assert(e2[x] == e1[x]);
                    if pos is Some {
                        assert(e1[i].device@ != e1[x].device@);
                    }
                }
            }
            let m1 = alias_map(e1);
            let m2 = alias_map(e2);
            let target = m1.insert(device@, alias@);
            lemma_map_at(e2, i);
            assert forall|k: Seq<char>| #[trigger] m2.contains_key(k) == target.contains_key(k) by {
                if has_device(e2, k) {
                    let c = choose|c: int| 0 <= c < e2.len() && #[trigger] e2[c].device@ == k;
                    if c != i {
                        assert(e1[c] == e2[c]);
                    }
                }
                if has_device(e1, k) && k != device@ {
                    let c = choose|c: int| 0 <= c < e1.len() && #[trigger] e1[c].device@ == k;
                    assert(e1[c] == e2[c]);
                }
            }
            assert forall|k: Seq<char>| #[trigger] m2.contains_key(k) implies m2[k] == target[k] by {
                if k != device@ {
                    let c = choose|c: int| 0 <= c < e2.len() && #[trigger] e2[c].device@ == k;
                    assert(c != i);
                    assert(e1[c] == e2[c]);
                    lemma_map_at(e2, c);
                    lemma_map_at(e1, c);
                }
            }
            assert(m2 =~= target);
        }
        *self = AliasTable { entries };
    }

    /// Drops the alias of `device`, if it has one.
    pub fn remove(&mut self, device: &str)
        ensures
            final(self).aliases() == old(self).aliases().remove(device@),
    {
        proof {
            use_type_invariant(&*self);
        }
        let d = String::from_str(device);
        match self.position(&d) {
            None => {
                proof {
                    assert(old(self).aliases().remove(device@) =~= old(self).aliases());
                }
            },
            Some(i) => {
                let mut taken = AliasTable { entries: Vec::new() };
                std::mem::swap(self, &mut taken);
                let AliasTable { entries: mut entries } = taken;
                let ghost e1 = entries@;
                entries.remove(i);
                proof {
                    let e2 = entries@;
                    assert(e2 == e1.remove(i as int));
                    assert forall|x: int, y: int|
                        0 <= x < e2.len() && 0 <= y < e2.len() && x != y implies #[trigger] e2[x].device@
                        != #[trigger] e2[y].device@ by {
                        let ox = if x < i { x } else { x + 1 };
                        let oy = if y < i { y } else { y + 1 };
                        assert(e2[x] == e1[ox]);
                        assert(e2[y] == e1[oy]);
                        assert(e1[ox].device@ != e1[oy].device@);
                    }
                    let m1 = alias_map(e1);
                    let m2 = alias_map(e2);
                    let target = m1.remove(device@);
                    assert forall|k: Seq<char>| #[trigger] m2.contains_key(k) == target.contains_key(k) by {
                        if has_device(e2, k) {
                            let c = choose|c: int| 0 <= c < e2.len() && #[trigger] e2[c].device@ == k;
                            let oc = if c < i { c } else { c + 1 };
                            assert(e2[c] == e1[oc]);
                            assert(e1[oc].device@ != e1[i as int].device@);
                        }
                        if has_device(e1, k) && k != device@ {
                            let c = choose|c: int| 0 <= c < e1.len() && #[trigger] e1[c].device@ == k;
                            assert(c != i);
                            let nc = if c < i { c } else { c - 1 };
                            assert(e2[nc] == e1[c]);
                        }
                    }
                    assert forall|k: Seq<char>| #[trigger] m2.contains_key(k) implies m2[k] == target[k] by {
                        let c = choose|c: int| 0 <= c < e2.len() && #[trigger] e2[c].device@ == k;
                        let oc = if c < i { c } else { c + 1 };
                        assert(e2[c] == e1[oc]);
                        lemma_map_at(e2, c);
                        lemma_map_at(e1, oc);
                    }
                    assert(m2 =~= target);
                }
                *self = AliasTable { entries };
            },
        }
    }

    /// The rename rule of the routing matrix: renaming a device to an empty
    /// name or to its own name drops its alias; any other name becomes its
    /// alias.
    pub fn rename(&mut self, device: &str, alias: &str)
        ensures
            final(self).aliases() == renamed(old(self).aliases(), device@, alias@),
    {
        let d = String::from_str(device);
        let a = String::from_str(alias);
        if a.as_str().unicode_len() == 0 || a == d {
            self.remove(device);
        } else {
            self.insert(device, alias);
        }
    }

    /// Every (device, alias) pair, once each, for saving.
    pub fn entries(&self) -> (r: Vec<(String, String)>)
        ensures
            forall|j: int|
                #![trigger r@[j]]
                0 <= j < r@.len() ==> self.aliases().contains_key(r@[j].0@) && self.aliases()[r@[j].0@]
                    == r@[j].1@,
            forall|d: Seq<char>| #[trigger]
                self.aliases().contains_key(d) ==> exists|j: int|
                    0 <= j < r@.len() && #[trigger] r@[j].0@ == d,
            forall|j1: int, j2: int|
                0 <= j1 < r@.len() && 0 <= j2 < r@.len() && j1 != j2 ==> #[trigger] r@[j1].0@
                    != #[trigger] r@[j2].0@,
    {
        proof {
            use_type_invariant(self);
        }
        let mut r: Vec<(String, String)> = Vec::new();
        let mut i: usize = 0;
        while i < self.entries.len()
            invariant
                devices_distinct(self.entries@),
                i <= self.entries@.len(),
                r@.len() == i,
                forall|j: int|
                    0 <= j < i ==> #[trigger] r@[j].0@ == self.entries@[j].device@ && r@[j].1@
                        == self.entries@[j].alias@,
            decreases self.entries@.len() - i,
        {
            let pair = (self.entries[i].device.clone(), self.entries[i].alias.clone());
            r.push(pair);
            i = i + 1;
        }
        proof {
            let e = self.entries@;
            assert forall|j: int| #![trigger r@[j]] 0 <= j < r@.len() implies self.aliases().contains_key(
                r@[j].0@,
            ) && self.aliases()[r@[j].0@] == r@[j].1@ by {
                assert(r@[j].0@ == e[j].device@);
                lemma_map_at(e, j);
            }
            assert forall|d: Seq<char>| #[trigger] self.aliases().contains_key(d) implies exists|j: int|
                0 <= j < r@.len() && #[trigger] r@[j].0@ == d by {
                let c = choose|c: int| 0 <= c < e.len() && #[trigger] e[c].device@ == d;
                assert(r@[c].0@ == e[c].device@);
            }
            assert forall|j1: int, j2: int|
                0 <= j1 < r@.len() && 0 <= j2 < r@.len() && j1 != j2 implies #[trigger] r@[j1].0@
                != #[trigger] r@[j2].0@ by {
                assert(r@[j1].0@ == e[j1].device@);
                assert(r@[j2].0@ == e[j2].device@);
            }
        }
        r
    }
}

/// After renaming a device, it is shown under the new name, or under its
/// own name when the new name is empty.
pub proof fn law_rename_then_shown(
    aliases: Map<Seq<char>, Seq<char>>,
    device: Seq<char>,
    alias: Seq<char>,
)
    ensures
        shown_name(renamed(aliases, device, alias), device) == if alias.len() == 0 {
            device
        } else {
            alias
        },
{
}

/// Renaming one device leaves how every other device is shown.
pub proof fn law_rename_touches_one_device(
    aliases: Map<Seq<char>, Seq<char>>,
    device: Seq<char>,
    alias: Seq<char>,
    other: Seq<char>,
)
    requires
        other != device,
    ensures
        shown_name(renamed(aliases, device, alias), other) == shown_name(aliases, other),
{
}

/// A device without an alias is shown under its own name.
pub proof fn law_unaliased_shown_as_is(aliases: Map<Seq<char>, Seq<char>>, device: Seq<char>)
    requires
        !aliases.contains_key(device),
    ensures
        shown_name(aliases, device) == device,
{
}

} // verus!
