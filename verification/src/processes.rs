use vstd::prelude::*;
use vstd::string::*;

use crate::text::{
    chars_of,
    compare_text,
    decimal,
    decimal_text,
    is_plain_numeral,
    law_decimal_denotes,
    numeral_value,
    lemma_text_lt_irreflexive,
    lemma_text_lt_total,
    lemma_text_lt_transitive,
    lowercase,
    text_lt,
    to_lowercase,
    TextOrder,
};

verus! {

/// A running process that audio could be taken from.
#[derive(Clone, Debug)]
pub struct ProcessEntry {
    pub pid: u32,
    pub name: String,
}

/// In the process list, the process at position `a` of `ps` comes before
/// the one at `b`: its lower-cased name comes first, or the lower-cased
/// names are equal and it came first in `ps`.
pub open spec fn listed_before(ps: Seq<ProcessEntry>, a: int, b: int) -> bool {
    text_lt(lowercase(ps[a].name@), lowercase(ps[b].name@)) || (lowercase(ps[a].name@)
        == lowercase(ps[b].name@) && a < b)
}

/// `r` is `ps` rearranged by `perm` (entry `j` of `r` is entry `perm[j]` of
/// `ps`, each entry of `ps` used once) into the order of `listed_before`:
/// sorted by lower-cased name, equal names kept in their order.
pub open spec fn sorted_by_name(ps: Seq<ProcessEntry>, r: Seq<ProcessEntry>, perm: Seq<int>) -> bool {
    &&& r.len() == ps.len()
    &&& perm.len() == ps.len()
    &&& forall|j: int| 0 <= j < r.len() ==> 0 <= #[trigger] perm[j] < ps.len() && r[j] == ps[perm[j]]
    &&& forall|j1: int, j2: int|
        0 <= j1 < r.len() && 0 <= j2 < r.len() && j1 != j2 ==> #[trigger] perm[j1] != #[trigger] perm[j2]
    &&& forall|j1: int, j2: int|
        0 <= j1 < j2 < r.len() ==> listed_before(ps, #[trigger] perm[j1], #[trigger] perm[j2])
}

spec fn key_before(keys: Seq<Vec<char>>, a: int, b: int) -> bool {
    text_lt(keys[a]@, keys[b]@) || (keys[a]@ == keys[b]@ && a < b)
}

proof fn lemma_key_before_order(keys: Seq<Vec<char>>)
    ensures
        forall|a: int| !#[trigger] key_before(keys, a, a),
        forall|a: int, b: int|
            a != b ==> (#[trigger] key_before(keys, a, b) || #[trigger] key_before(keys, b, a)),
        forall|a: int, b: int| #[trigger] key_before(keys, a, b) ==> !#[trigger] key_before(keys, b, a),
        forall|a: int, b: int, c: int|
            #[trigger] key_before(keys, a, b) && #[trigger] key_before(keys, b, c) ==> key_before(
                keys,
                a,
                c,
            ),
{
    assert forall|a: int| !#[trigger] key_before(keys, a, a) by {
        lemma_text_lt_irreflexive(keys[a]@);
    }
    assert forall|a: int, b: int|
        a != b implies (#[trigger] key_before(keys, a, b) || #[trigger] key_before(keys, b, a)) by {
        lemma_text_lt_total(keys[a]@, keys[b]@);
    }
    assert forall|a: int, b: int| #[trigger] key_before(keys, a, b) implies !#[trigger] key_before(
        keys,
        b,
        a,
    ) by {
        lemma_text_lt_total(keys[a]@, keys[b]@);
        lemma_text_lt_irreflexive(keys[a]@);
    }
    assert forall|a: int, b: int, c: int|
        #[trigger] key_before(keys, a, b) && #[trigger] key_before(keys, b, c) implies key_before(
            keys,
            a,
            c,
        ) by {
        if text_lt(keys[a]@, keys[b]@) && text_lt(keys[b]@, keys[c]@) {
            lemma_text_lt_transitive(keys[a]@, keys[b]@, keys[c]@);
        }
    }
}

spec fn is_index_perm(idx: Seq<usize>, n: int) -> bool {
    &&& idx.len() == n
    &&& forall|x: int| 0 <= x < n ==> #[trigger] idx[x] < n
    &&& forall|x: int, y: int| 0 <= x < n && 0 <= y < n && x != y ==> #[trigger] idx[x] != #[trigger] idx[y]
}

fn key_first(keys: &Vec<Vec<char>>, a: usize, b: usize) -> (r: bool)
    requires
        a < keys@.len(),
        b < keys@.len(),
    ensures
        r == key_before(keys@, a as int, b as int),
{
    match compare_text(&keys[a], &keys[b]) {
        TextOrder::Less => true,
        TextOrder::Same => a < b,
        TextOrder::Greater => {
            proof {
                lemma_text_lt_total(keys@[a as int]@, keys@[b as int]@);
            }
            false
        },
    }
}

/// Sorts the process list by name, ignoring case, as the process picker
/// shows it; processes with the same lower-cased name keep their order.
pub fn sort_by_name(ps: Vec<ProcessEntry>) -> (r: Vec<ProcessEntry>)
    ensures
        exists|perm: Seq<int>| sorted_by_name(ps@, r@, perm),
{
    let n = ps.len();
    // the sort keys: lower-cased names
    let mut keys: Vec<Vec<char>> = Vec::new();
    let mut i: usize = 0;
    while i < n
        invariant
            n == ps@.len(),
            i <= n,
            keys@.len() == i,
            forall|k: int| 0 <= k < i ==> #[trigger] keys@[k]@ == lowercase(ps@[k].name@),
        decreases n - i,
    {
        let low = to_lowercase(ps[i].name.as_str());
        keys.push(chars_of(low.as_str()));
        i = i + 1;
    }
    // positions into `ps`, to be sorted
    let mut idx: Vec<usize> = Vec::new();
    let mut i: usize = 0;
    while i < n
        invariant
            i <= n,
            idx@.len() == i,
            forall|k: int| 0 <= k < i ==> #[trigger] idx@[k] == k,
        decreases n - i,
    {
        idx.push(i);
        i = i + 1;
    }
    proof {
        lemma_key_before_order(keys@);
    }
    // insertion sort of `idx` by `key_before`
    let mut i: usize = 1;
    while i < n
        invariant
            n == keys@.len(),
            1 <= i || n == 0,
            i <= n || n == 0,
            is_index_perm(idx@, n as int),
            forall|x: int, y: int|
                0 <= x < y < i && y < n ==> key_before(
                    keys@,
                    #[trigger] idx@[x] as int,
                    #[trigger] idx@[y] as int,
                ),
            forall|a: int| !#[trigger] key_before(keys@, a, a),
            forall|a: int, b: int|
                a != b ==> (#[trigger] key_before(keys@, a, b) || #[trigger] key_before(keys@, b, a)),
            forall|a: int, b: int|
                #[trigger] key_before(keys@, a, b) ==> !#[trigger] key_before(keys@, b, a),
            forall|a: int, b: int, c: int|
                #[trigger] key_before(keys@, a, b) && #[trigger] key_before(keys@, b, c)
                    ==> key_before(keys@, a, c),
        decreases n - i,
    {
        let mut j: usize = i;
        while j > 0 && key_first(&keys, idx[j], idx[j - 1])
            invariant
                n == keys@.len(),
                i < n,
                j <= i,
                is_index_perm(idx@, n as int),
                forall|x: int, y: int|
                    0 <= x < y <= i && x != j && y != j ==> key_before(
                        keys@,
                        #[trigger] idx@[x] as int,
                        #[trigger] idx@[y] as int,
                    ),
                forall|y: int|
                    j < y <= i ==> key_before(keys@, idx@[j as int] as int, #[trigger] idx@[y] as int),
                forall|a: int| !#[trigger] key_before(keys@, a, a),
                forall|a: int, b: int|
                    a != b ==> (#[trigger] key_before(keys@, a, b) || #[trigger] key_before(
                        keys@,
                        b,
                        a,
                    )),
                forall|a: int, b: int|
                    #[trigger] key_before(keys@, a, b) ==> !#[trigger] key_before(keys@, b, a),
                forall|a: int, b: int, c: int|
                    #[trigger] key_before(keys@, a, b) && #[trigger] key_before(keys@, b, c)
                        ==> key_before(keys@, a, c),
            decreases j,
        {
            let ghost old_idx = idx@;
            let moving = idx[j];
            let before = idx[j - 1];
            idx.set(j - 1, moving);
            idx.set(j, before);
            proof {
                assert(idx@ == old_idx.update(j - 1, moving).update(j as int, before));
                assert forall|x: int, y: int|
                    0 <= x < n && 0 <= y < n && x != y implies #[trigger] idx@[x]
                    != #[trigger] idx@[y] by {
                    let ox = if x == j - 1 {
                        j as int
                    } else if x == j {
                        j - 1
                    } else {
                        x
                    };
                    let oy = if y == j - 1 {
                        j as int
                    } else if y == j {
                        j - 1
                    } else {
                        y
                    };
                    assert(idx@[x] == old_idx[ox]);
                    assert(idx@[y] == old_idx[oy]);
                    assert(old_idx[ox] != old_idx[oy]);
                }
                assert forall|x: int| 0 <= x < n implies #[trigger] idx@[x] < n by {
                    if x == j - 1 {
                        assert(old_idx[j as int] < n);
                    } else if x == j {
                        assert(old_idx[j - 1] < n);
                    } else {
                        assert(old_idx[x] < n);
                    }
                }
                assert forall|x: int, y: int|
                    0 <= x < y <= i && x != j - 1 && y != j - 1 implies key_before(
                        keys@,
                        #[trigger] idx@[x] as int,
                        #[trigger] idx@[y] as int,
                    ) by {
                    if y == j {
                        // x < j - 1: the element that moved up stays after it
                        assert(idx@[y] == old_idx[j - 1]);
                        assert(idx@[x] == old_idx[x]);
                        assert(key_before(keys@, old_idx[x] as int, old_idx[j - 1] as int));
                    } else if x == j {
                        assert(idx@[x] == old_idx[j - 1]);
                        assert(idx@[y] == old_idx[y]);
                        assert(key_before(keys@, old_idx[j - 1] as int, old_idx[y] as int));
                    } else {
                        assert(idx@[x] == old_idx[x]);
                        assert(idx@[y] == old_idx[y]);
                        assert(key_before(keys@, old_idx[x] as int, old_idx[y] as int));
                    }
                }
                assert forall|y: int| j - 1 < y <= i implies key_before(
                    keys@,
                    idx@[j - 1] as int,
                    #[trigger] idx@[y] as int,
                ) by {
                    assert(idx@[j - 1] == old_idx[j as int]);
                    if y == j {
                        assert(idx@[y] == old_idx[j - 1]);
                    } else {
                        assert(idx@[y] == old_idx[y]);
                        assert(key_before(keys@, old_idx[j as int] as int, old_idx[y] as int));
                    }
                }
            }
            j = j - 1;
        }
        proof {
            // the moved element is after everything before it
            if j > 0 {
                assert(!key_before(keys@, idx@[j as int] as int, idx@[j - 1] as int));
                assert(idx@[j as int] != idx@[j - 1]);
                assert(key_before(keys@, idx@[j - 1] as int, idx@[j as int] as int));
            }
            assert forall|x: int, y: int|
                0 <= x < y < i + 1 && y < n implies key_before(
                    keys@,
                    #[trigger] idx@[x] as int,
                    #[trigger] idx@[y] as int,
                ) by {
                if y == j {
                    if x < j - 1 {
                        assert(key_before(keys@, idx@[x] as int, idx@[j - 1] as int));
                    }
                } else if x == j {
                    assert(key_before(keys@, idx@[j as int] as int, idx@[y] as int));
                }
            }
        }
        i = i + 1;
    }
    // gather the entries in sorted order
    let mut r: Vec<ProcessEntry> = Vec::new();
    let mut k: usize = 0;
    while k < n
        invariant
            n == ps@.len(),
            n == keys@.len(),
            forall|m: int| 0 <= m < n ==> #[trigger] keys@[m]@ == lowercase(ps@[m].name@),
            is_index_perm(idx@, n as int),
            k <= n,
            r@.len() == k,
            forall|m: int| 0 <= m < k ==> #[trigger] r@[m] == ps@[idx@[m] as int],
        decreases n - k,
    {
        let from = idx[k];
        let entry = ProcessEntry { pid: ps[from].pid, name: ps[from].name.clone() };
        r.push(entry);
        k = k + 1;
    }
    proof {
        let perm = Seq::new(n as nat, |m: int| idx@[m] as int);
        assert forall|j1: int, j2: int| 0 <= j1 < j2 < r@.len() implies listed_before(
            ps@,
            #[trigger] perm[j1],
            #[trigger] perm[j2],
        ) by {
            if n > 0 {
                assert(key_before(keys@, idx@[j1] as int, idx@[j2] as int));
            }
        }
        assert forall|j1: int, j2: int|
            0 <= j1 < r@.len() && 0 <= j2 < r@.len() && j1 != j2 implies #[trigger] perm[j1]
            != #[trigger] perm[j2] by {
            assert(idx@[j1] != idx@[j2]);
        }
        assert forall|j: int| 0 <= j < r@.len() implies 0 <= #[trigger] perm[j] < ps@.len() && r@[j]
            == ps@[perm[j]] by {
            assert(idx@[j] < n);
        }
        assert(sorted_by_name(ps@, r@, perm));
    }
    r
}

/// The row label of a process offered as an input: `[App] name (pid)`.
pub open spec fn app_label(name: Seq<char>, pid: u32) -> Seq<char> {
    seq!['[', 'A', 'p', 'p', ']', ' '] + name + seq![' ', '('] + decimal(pid as nat) + seq![')']
}


/// For every name and every pid, the row label is `[App] `, then the name,
/// then ` (`, then a plain decimal numeral that denotes the pid, then `)`.
pub proof fn law_app_label_shape(name: Seq<char>, pid: u32)
    ensures
        ({
            let l = app_label(name, pid);
            let n = name.len() as int;
            &&& l.len() >= n + 9
            &&& l.subrange(0, 6) == seq!['[', 'A', 'p', 'p', ']', ' ']
            &&& l.subrange(6, 6 + n) == name
            &&& l[6 + n] == ' '
            &&& l[7 + n] == '('
            &&& l[l.len() - 1] == ')'
            &&& is_plain_numeral(l.subrange(8 + n, l.len() - 1))
            &&& numeral_value(l.subrange(8 + n, l.len() - 1)) == pid
        }),
{
    law_decimal_denotes(pid as nat);
    let l = app_label(name, pid);
    let n = name.len() as int;
    let d = decimal(pid as nat);
    assert(l.subrange(0, 6) =~= seq!['[', 'A', 'p', 'p', ']', ' ']);
    assert(l.subrange(6, 6 + n) =~= name);
    assert(l.subrange(8 + n, l.len() - 1) =~= d);
}

/// Writes the row label of a process offered as an input.
pub fn app_input_label(p: &ProcessEntry) -> (s: String)
    ensures
        s@ == app_label(p.name@, p.pid),
{
    let mut s = String::from_str("[App] ");
    s.append(p.name.as_str());
    s.append(" (");
    let digits = decimal_text(p.pid);
    s.append(digits.as_str());
    s.append(")");
    proof {
        reveal_strlit("[App] ");
        reveal_strlit(" (");
        reveal_strlit(")");
        assert(s@ =~= app_label(p.name@, p.pid));
    }
    s
}

} // verus!
