//! Merging two resource dictionaries without displacing existing bindings.
use vstd::prelude::*;
use crate::object::{Dictionary, Value, keys_unique, lemma_lookup_append, lemma_lookup_update, lookup};

verus! {

/// `r` holds every name of `base` with its value, and every other name of
/// `overlay` with the overlay's value.
pub open spec fn table_merged(r: Dictionary, base: Dictionary, overlay: Dictionary) -> bool {
    forall|n: Seq<char>|
        #[trigger] r.spec_get(n) == if base.spec_get(n) is Some {
            base.spec_get(n)
        } else {
            overlay.spec_get(n)
        }
}

/// What one resource class of a merge holds: the overlay's entry where the
/// base has none, both tables merged where both are inline dictionaries, and
/// the base's entry otherwise.
pub open spec fn class_merged(r: Option<Value>, base: Option<Value>, overlay: Option<Value>) -> bool {
    match (base, overlay) {
        (None, _) => r == overlay,
        (Some(Value::Dictionary(b)), Some(Value::Dictionary(o))) => match r {
            Some(Value::Dictionary(m)) => table_merged(m, b, o),
            _ => false,
        },
        (Some(_), _) => r == base,
    }
}

/// The union of two name tables; where a name is in both, `base` wins.
pub fn merge_table(base: Dictionary, overlay: Dictionary) -> (r: Dictionary)
    ensures
        table_merged(r, base, overlay),
{
    let ghost ov = overlay.entries@;
    let mut r = base;
    let mut rest = overlay.entries;
    let ghost mut i: int = 0;
    assert(ov.subrange(0, ov.len() as int) =~= ov);
    while rest.len() > 0
        invariant
            0 <= i <= ov.len(),
            rest@ == ov.subrange(i, ov.len() as int),
            forall|n: Seq<char>|
                #[trigger] r.spec_get(n) == if base.spec_get(n) is Some {
                    base.spec_get(n)
                } else {
                    lookup(ov.subrange(0, i), n)
                },
        decreases rest@.len(),
    {
        let (k, v) = rest.remove(0);
        proof {
            assert(ov.subrange(0, i + 1) =~= ov.subrange(0, i).push(ov[i]));
            assert forall|n: Seq<char>| #[trigger] lookup(ov.subrange(0, i + 1), n) == match lookup(ov.subrange(0, i), n) {
                Some(x) => Some(x),
                None => if ov[i].0@ == n {
                    Some(ov[i].1)
                } else {
                    None
                },
            } by {
                lemma_lookup_append(ov.subrange(0, i), ov[i], n);
            }
        }
        match r.get(k.as_str()) {
            Some(_) => {},
            None => {
                r.set(k, v);
            },
        }
        proof {
            i = i + 1;
            assert(rest@ =~= ov.subrange(i, ov.len() as int));
        }
    }
    assert(ov.subrange(0, ov.len() as int) =~= ov);
    r
}

/// A class that the merge leaves as the base has it though the overlay holds
/// it too: one side or the other is not an inline table (an indirect table
/// may be shared with other pages, so it is not changed).
pub open spec fn deferred_class(base: Option<Value>, overlay: Option<Value>) -> bool {
    base is Some && overlay is Some && !(base->0 is Dictionary && overlay->0 is Dictionary)
}

/// `names` holds `k`.
pub open spec fn lists(names: Seq<String>, k: Seq<char>) -> bool {
    exists|j: int| 0 <= j < names.len() && names[j]@ == k
}

/// The result of a merge, and the classes it deferred.
#[derive(Debug)]
pub struct Merged {
    pub resources: Dictionary,
    pub deferred: Vec<String>,
}

/// Merges the resource dictionary `overlay` into `base`.
///
/// Every class of `base` stays. A class only `overlay` has is added as it is.
/// Where both hold a class as an inline table, the tables are merged and
/// `base`'s binding wins a name held by both. Where `base` holds the class
/// by reference, or either side is not a table, `base`'s entry stays untouched
/// and the class is reported as deferred.
pub fn merge(base: Dictionary, overlay: Dictionary) -> (m: Merged)
    requires
        keys_unique(overlay.entries@),
    ensures
        forall|k: Seq<char>| #[trigger] class_merged(m.resources.spec_get(k), base.spec_get(k), overlay.spec_get(k)),
        forall|k: Seq<char>| #[trigger] lists(m.deferred@, k) <==> deferred_class(base.spec_get(k), overlay.spec_get(k)),
{
    let mut deferred: Vec<String> = Vec::new();
    let ghost ov = overlay.entries@;
    let mut r = base;
    let mut rest = overlay.entries;
    let ghost mut i: int = 0;
    assert(ov.subrange(0, ov.len() as int) =~= ov);
    while rest.len() > 0
        invariant
            0 <= i <= ov.len(),
            keys_unique(ov),
            rest@ == ov.subrange(i, ov.len() as int),
            forall|k: Seq<char>|
                #[trigger] class_merged(r.spec_get(k), base.spec_get(k), lookup(ov.subrange(0, i), k)),
            forall|k: Seq<char>|
                #[trigger] lists(deferred@, k) <==> deferred_class(base.spec_get(k), lookup(ov.subrange(0, i), k)),
        decreases rest@.len(),
    {
        let (k, v) = rest.remove(0);
        let ghost k0 = k@;
        let ghost v0 = v;
        proof {
            assert(ov.subrange(0, i + 1) =~= ov.subrange(0, i).push(ov[i]));
            assert forall|n: Seq<char>| #[trigger] lookup(ov.subrange(0, i + 1), n) == match lookup(ov.subrange(0, i), n) {
                Some(x) => Some(x),
                None => if ov[i].0@ == n {
                    Some(ov[i].1)
                } else {
                    None
                },
            } by {
                lemma_lookup_append(ov.subrange(0, i), ov[i], n);
            }
            crate::object::lemma_lookup_index(ov.subrange(0, i), k0, -1);
        }
        let ghost before = r;
        let ghost deferred0 = deferred@;
        let ghost p0 = ov.subrange(0, i);
        let ghost p1 = ov.subrange(0, i + 1);
        assert(ov[i].0@ == k0 && ov[i].1 == v0);
        assert(lookup(p1, k0) == Some(v0));
        assert(before.spec_get(k0) == base.spec_get(k0)) by {
            assert(class_merged(before.spec_get(k0), base.spec_get(k0), lookup(p0, k0)));
        }
        assert forall|n: Seq<char>| n != k0 implies #[trigger] lookup(p1, n) == lookup(p0, n) by {}
        match r.position(k.as_str()) {
            None => {
                r.set(k, v);
                assert forall|n: Seq<char>| #[trigger] class_merged(r.spec_get(n), base.spec_get(n), lookup(p1, n)) by {
                    if n != k0 {
                        assert(class_merged(before.spec_get(n), base.spec_get(n), lookup(p0, n)));
                    }
                }
            },
            Some(j) => {
                let (key, current) = r.entries.remove(j);
                match (current, v) {
                    (Value::Dictionary(b), Value::Dictionary(o)) => {
                        let m = merge_table(b, o);
                        r.entries.insert(j, (key, Value::Dictionary(m)));
                    },
                    (current, _) => {
                        deferred.push(crate::object::copy_string(&key));
                        r.entries.insert(j, (key, current));
                    },
                }
                proof {
                    assert(r.entries@ =~= before.entries@.update(j as int, r.entries@[j as int]));
                    lemma_lookup_update(before.entries@, j as int, r.entries@[j as int].0, r.entries@[j as int].1);
                    assert forall|n: Seq<char>| #[trigger] class_merged(r.spec_get(n), base.spec_get(n), lookup(p1, n)) by {
                        if n != k0 {
                            assert(class_merged(before.spec_get(n), base.spec_get(n), lookup(p0, n)));
                        }
                    }
                }
            },
        }
        proof {
            assert forall|n: Seq<char>| #[trigger] lists(deferred@, n) <==> deferred_class(base.spec_get(n), lookup(p1, n)) by {
                if lists(deferred@, n) && !lists(deferred0, n) {
                    let j = choose|j: int| 0 <= j < deferred@.len() && deferred@[j]@ == n;
                    assert(j == deferred0.len());
                }
                if lists(deferred0, n) {
                    let j = choose|j: int| 0 <= j < deferred0.len() && deferred0[j]@ == n;
                    assert(deferred@[j] == deferred0[j]);
                }
                if n == k0 && deferred@.len() > deferred0.len() {
                    assert(deferred@[deferred0.len() as int]@ == n);
                }
            }
            i = i + 1;
            assert(rest@ =~= ov.subrange(i, ov.len() as int));
        }
    }
    assert(ov.subrange(0, ov.len() as int) =~= ov);
    Merged { resources: r, deferred }
}

} // verus!
