use vstd::prelude::*;
use vstd::string::*;

use crate::processes::{app_input_label, app_label, ProcessEntry};

verus! {

/// The names of the devices that reported one, in the order listed; a
/// device whose name could not be read is left out.
pub fn named_devices(names: Vec<Option<String>>) -> (r: Vec<String>)
    ensures
        r@ == names@.filter_map(|n: Option<String>| n),
{
    let mut r: Vec<String> = Vec::new();
    let mut i: usize = 0;
    proof {
        assert(names@.take(0) =~= Seq::<Option<String>>::empty());
    }
    while i < names.len()
        invariant
            i <= names@.len(),
            r@ == names@.take(i as int).filter_map(|n: Option<String>| n),
        decreases names@.len() - i,
    {
        proof {
            names@.lemma_filter_map_take_succ(|n: Option<String>| n, i as int);
        }
        let ghost r0 = r@;
        match &names[i] {
            Some(n) => {
                let c = n.clone();
                assert(names@[i as int] == Some(c));
                r.push(c);
                assert(r@ =~= r0 + seq![c]);
            },
            None => {
                assert(names@[i as int] is None);
            },
        }
        proof {
            assert(r@ =~= names@.take(i + 1).filter_map(|n: Option<String>| n));
        }
        i = i + 1;
    }
    assert(names@.take(names@.len() as int) =~= names@);
    r
}


/// Finds the device to open by name among the listed devices: the first
/// one whose name could be read and is `name`.
pub fn find_named(names: &Vec<Option<String>>, name: &str) -> (r: Option<usize>)
    ensures
        match r {
            Some(i) => {
                &&& i < names@.len()
                &&& names@[i as int] matches Some(n) && n@ == name@
                &&& forall|j: int|
                    0 <= j < i ==> !(#[trigger] names@[j] matches Some(n) && n@ == name@)
            },
            None => forall|j: int|
                0 <= j < names@.len() ==> !(#[trigger] names@[j] matches Some(n) && n@ == name@),
        },
{
    let wanted = String::from_str(name);
    let mut i: usize = 0;
    while i < names.len()
        invariant
            wanted@ == name@,
            i <= names@.len(),
            forall|j: int| 0 <= j < i ==> !(#[trigger] names@[j] matches Some(n) && n@ == name@),
        decreases names@.len() - i,
    {
        match &names[i] {
            Some(n) => {
                if *n == wanted {
                    return Some(i);
                }
            },
            None => {},
        }
        i = i + 1;
    }
    None
}

/// The input rows after refreshing the device list: the capture devices
/// just listed (or the rows as they were, when listing failed), followed by
/// one row per process.
pub fn refreshed_inputs(
    current: Vec<String>,
    listed: Option<Vec<String>>,
    processes: &Vec<ProcessEntry>,
) -> (r: Vec<String>)
    ensures
        ({
            let base = match listed {
                Some(l) => l@,
                None => current@,
            };
            &&& r@.len() == base.len() + processes@.len()
            &&& forall|j: int| 0 <= j < base.len() ==> #[trigger] r@[j] == base[j]
            &&& forall|k: int|
                0 <= k < processes@.len() ==> #[trigger] r@[base.len() + k]@ == app_label(
                    processes@[k].name@,
                    processes@[k].pid,
                )
        }),
{
    let mut r = match listed {
        Some(l) => l,
        None => current,
    };
    let ghost base = r@;
    let mut k: usize = 0;
    while k < processes.len()
        invariant
            k <= processes@.len(),
            r@.len() == base.len() + k,
            forall|j: int| 0 <= j < base.len() ==> #[trigger] r@[j] == base[j],
            forall|m: int|
                0 <= m < k ==> #[trigger] r@[base.len() + m]@ == app_label(
                    processes@[m].name@,
                    processes@[m].pid,
                ),
        decreases processes@.len() - k,
    {
        let label = app_input_label(&processes[k]);
        r.push(label);
        k = k + 1;
    }
    r
}

} // verus!
