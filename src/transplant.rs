//! Cycle-safe deep copy of an object subgraph from one document into another.
use vstd::prelude::*;
use crate::object::{
    Dictionary, Document, Error, ObjectId, Stream, Value, all_refs, copy_string, duplicate, identity,
    mapped, refers_to,
};

verus! {

/// The slot of `id` in a cache, `None` when it has none.
pub open spec fn slot_of(s: Seq<Option<ObjectId>>, id: ObjectId) -> Option<ObjectId> {
    if (id.0 as int) < s.len() {
        s[id.0 as int]
    } else {
        None
    }
}

/// The source identifiers that a cache holds.
pub open spec fn cached(s: Seq<Option<ObjectId>>) -> Set<ObjectId> {
    Set::new(|y: ObjectId| slot_of(s, y) is Some)
}

/// The renaming of references that a cache stands for; identifiers it does
/// not hold are left as they are.
pub open spec fn renaming(s: Seq<Option<ObjectId>>) -> spec_fn(ObjectId) -> ObjectId {
    |y: ObjectId|
        match slot_of(s, y) {
            Some(t) => t,
            None => y,
        }
}

/// `s2` keeps every entry of `s1`.
pub open spec fn extends(s1: Seq<Option<ObjectId>>, s2: Seq<Option<ObjectId>>) -> bool {
    s1.len() == s2.len() && forall|i: int| 0 <= i < s1.len() && s1[i] is Some ==> #[trigger] s2[i] == s1[i]
}

/// `x` has an entry in `s1` but none in `s0`.
pub open spec fn fresh(s0: Seq<Option<ObjectId>>, s1: Seq<Option<ObjectId>>, x: ObjectId) -> bool {
    slot_of(s0, x) is None && slot_of(s1, x) is Some
}

/// The number of empty slots.
pub open spec fn count_none(s: Seq<Option<ObjectId>>) -> nat
    decreases s.len(),
{
    if s.len() == 0 {
        0
    } else {
        count_none(s.drop_last()) + if s.last() is None {
            1nat
        } else {
            0nat
        }
    }
}

/// Every destination identifier in the cache names an object of `d`.
pub open spec fn cache_valid(d: Seq<Option<Value>>, s: Seq<Option<ObjectId>>) -> bool {
    forall|x: ObjectId|
        #[trigger] slot_of(s, x) is Some ==> slot_of(s, x)->0.index() < d.len() && d[slot_of(s, x)->0.index()] is Some
}

/// Object `x` of `source` has been copied to the place its cache entry names.
pub open spec fn copied(source: Document, d: Seq<Option<Value>>, s: Seq<Option<ObjectId>>, x: ObjectId) -> bool {
    let t = slot_of(s, x)->0.index();
    &&& source.resolves(x)
    &&& 0 <= t < d.len()
    &&& d[t] is Some
    &&& mapped(d[t]->0, source.spec_object(x), renaming(s))
    &&& all_refs(source.spec_object(x), cached(s))
}

/// From destination `d0` and cache `s0` to `d1` and `s1`: objects are only
/// appended, one for each new cache entry, and each new entry is a finished copy.
pub open spec fn progress(
    source: Document,
    d0: Seq<Option<Value>>,
    s0: Seq<Option<ObjectId>>,
    d1: Seq<Option<Value>>,
    s1: Seq<Option<ObjectId>>,
) -> bool {
    &&& extends(s0, s1)
    &&& d0.len() <= d1.len()
    &&& forall|i: int| 0 <= i < d0.len() ==> #[trigger] d1[i] == d0[i]
    &&& d1.len() - d0.len() == count_none(s0) - count_none(s1)
    &&& forall|x: ObjectId|
        #[trigger] fresh(s0, s1, x) ==> copied(source, d1, s1, x) && d0.len() <= slot_of(s1, x)->0.index()
            < d1.len()
}

/// The identifiers that name objects of `doc`.
pub open spec fn resolvable(doc: Document) -> Set<ObjectId> {
    Set::new(|id: ObjectId| doc.resolves(id))
}

/// Every reference inside every object of `doc` names an object of `doc`.
pub open spec fn closed(doc: Document) -> bool {
    forall|id: ObjectId| #[trigger] doc.resolves(id) ==> all_refs(doc.spec_object(id), resolvable(doc))
}

/// What a failed copy reports: a dangling reference met on the way.
pub open spec fn dangling_reached(
    source: Document,
    v: Value,
    s0: Seq<Option<ObjectId>>,
    s1: Seq<Option<ObjectId>>,
    e: Error,
) -> bool {
    match e {
        Error::DanglingReference(id) => !source.resolves(id) && (refers_to(v, id) || exists|x: ObjectId|
            #[trigger] fresh(s0, s1, x) && refers_to(source.spec_object(x), id)),
        _ => false,
    }
}

pub proof fn lemma_count_none_le(s: Seq<Option<ObjectId>>)
    ensures
        count_none(s) <= s.len(),
    decreases s.len(),
{
    if s.len() > 0 {
        lemma_count_none_le(s.drop_last());
    }
}

/// Filling an empty slot lowers the count of empty slots by one.
proof fn lemma_count_fill(s: Seq<Option<ObjectId>>, i: int, t: ObjectId)
    requires
        0 <= i < s.len(),
        s[i] is None,
    ensures
        count_none(s.update(i, Some(t))) + 1 == count_none(s),
    decreases s.len(),
{
    let u = s.update(i, Some(t));
    if i == s.len() - 1 {
        assert(u.drop_last() =~= s.drop_last());
    } else {
        lemma_count_fill(s.drop_last(), i, t);
        assert(u.drop_last() =~= s.drop_last().update(i, Some(t)));
    }
}

/// A cache that keeps every entry has no more empty slots.
pub proof fn lemma_count_extends(s1: Seq<Option<ObjectId>>, s2: Seq<Option<ObjectId>>)
    requires
        extends(s1, s2),
    ensures
        count_none(s2) <= count_none(s1),
    decreases s1.len(),
{
    if s1.len() > 0 {
        assert(s1.last() is Some ==> s2[s1.len() - 1] == s1[s1.len() - 1]);
        lemma_count_extends(s1.drop_last(), s2.drop_last());
    }
}

/// An extended cache renames what the smaller one held in the same way.
proof fn lemma_extends_agree(s1: Seq<Option<ObjectId>>, s2: Seq<Option<ObjectId>>)
    requires
        extends(s1, s2),
    ensures
        cached(s1) <= cached(s2),
        forall|y: ObjectId| cached(s1).contains(y) ==> #[trigger] renaming(s1)(y) == renaming(s2)(y),
{
    assert forall|y: ObjectId| cached(s1).contains(y) implies cached(s2).contains(y) by {
        assert(s2[y.0 as int] == s1[y.0 as int]);
    }
    assert forall|y: ObjectId| cached(s1).contains(y) implies #[trigger] renaming(s1)(y) == renaming(s2)(y) by {
        assert(s2[y.0 as int] == s1[y.0 as int]);
    }
}

/// Where two renamings agree on every reference of `b`, a copy under one is a
/// copy under the other.
pub proof fn lemma_mapped_agree(
    a: Value,
    b: Value,
    f1: spec_fn(ObjectId) -> ObjectId,
    f2: spec_fn(ObjectId) -> ObjectId,
    s: Set<ObjectId>,
)
    requires
        mapped(a, b, f1),
        all_refs(b, s),
        forall|y: ObjectId| s.contains(y) ==> #[trigger] f1(y) == f2(y),
    ensures
        mapped(a, b, f2),
    decreases b,
{
    match b {
        Value::Array(y) => {
            let x = a->Array_0;
            assert(forall|i: int| 0 <= i < y.len() ==> mapped(x@[i], y@[i], f1));
            assert forall|i: int| 0 <= i < y.len() implies mapped(x@[i], y@[i], f2) by {
                assert(decreases_to!(b => b->Array_0));
                assert(decreases_to!(b->Array_0 => y@[i]));
                lemma_mapped_agree(x@[i], y@[i], f1, f2, s);
            }
        },
        Value::Dictionary(y) => {
            let x = a->Dictionary_0;
            assert forall|i: int| 0 <= i < y.entries.len() implies mapped(
                x.entries@[i].1,
                y.entries@[i].1,
                f2,
            ) by {
                assert(decreases_to!(b => b->Dictionary_0));
                assert(decreases_to!(b->Dictionary_0 => y.entries));
                assert(decreases_to!(y.entries => y.entries@));
                assert(decreases_to!(y.entries@ => y.entries@[i]));
                assert(decreases_to!(y.entries@[i] => y.entries@[i].1));
                lemma_mapped_agree(x.entries@[i].1, y.entries@[i].1, f1, f2, s);
            }
        },
        Value::Stream(y) => {
            let x = a->Stream_0;
            assert forall|i: int| 0 <= i < y.dict.entries.len() implies mapped(
                x.dict.entries@[i].1,
                y.dict.entries@[i].1,
                f2,
            ) by {
                assert(decreases_to!(b => b->Stream_0));
                assert(decreases_to!(b->Stream_0 => y.dict));
                assert(decreases_to!(y.dict => y.dict.entries));
                assert(decreases_to!(y.dict.entries => y.dict.entries@));
                assert(decreases_to!(y.dict.entries@ => y.dict.entries@[i]));
                assert(decreases_to!(y.dict.entries@[i] => y.dict.entries@[i].1));
                lemma_mapped_agree(x.dict.entries@[i].1, y.dict.entries@[i].1, f1, f2, s);
            }
        },
        _ => {},
    }
}

/// A value whose references lie in `s1` has them in every superset of `s1`.
pub proof fn lemma_all_refs_subset(v: Value, s1: Set<ObjectId>, s2: Set<ObjectId>)
    requires
        all_refs(v, s1),
        s1 <= s2,
    ensures
        all_refs(v, s2),
    decreases v,
{
    match v {
        Value::Array(y) => {
            assert forall|i: int| 0 <= i < y.len() implies all_refs(y@[i], s2) by {
                assert(decreases_to!(v => v->Array_0));
                assert(decreases_to!(v->Array_0 => y@[i]));
                lemma_all_refs_subset(y@[i], s1, s2);
            }
        },
        Value::Dictionary(y) => {
            assert forall|i: int| 0 <= i < y.entries.len() implies all_refs(y.entries@[i].1, s2) by {
                assert(decreases_to!(v => v->Dictionary_0));
                assert(decreases_to!(v->Dictionary_0 => y.entries));
                assert(decreases_to!(y.entries => y.entries@));
                assert(decreases_to!(y.entries@ => y.entries@[i]));
                assert(decreases_to!(y.entries@[i] => y.entries@[i].1));
                lemma_all_refs_subset(y.entries@[i].1, s1, s2);
            }
        },
        Value::Stream(y) => {
            assert forall|i: int| 0 <= i < y.dict.entries.len() implies all_refs(y.dict.entries@[i].1, s2) by {
                assert(decreases_to!(v => v->Stream_0));
                assert(decreases_to!(v->Stream_0 => y.dict));
                assert(decreases_to!(y.dict => y.dict.entries));
                assert(decreases_to!(y.dict.entries => y.dict.entries@));
                assert(decreases_to!(y.dict.entries@ => y.dict.entries@[i]));
                assert(decreases_to!(y.dict.entries@[i] => y.dict.entries@[i].1));
                lemma_all_refs_subset(y.dict.entries@[i].1, s1, s2);
            }
        },
        _ => {},
    }
}

/// Two steps of progress make one.
proof fn lemma_progress_trans(
    source: Document,
    d0: Seq<Option<Value>>,
    s0: Seq<Option<ObjectId>>,
    d1: Seq<Option<Value>>,
    s1: Seq<Option<ObjectId>>,
    d2: Seq<Option<Value>>,
    s2: Seq<Option<ObjectId>>,
)
    requires
        progress(source, d0, s0, d1, s1),
        progress(source, d1, s1, d2, s2),
    ensures
        progress(source, d0, s0, d2, s2),
{
    lemma_extends_agree(s1, s2);
    assert forall|x: ObjectId| #[trigger] fresh(s0, s2, x) implies copied(source, d2, s2, x) && d0.len()
        <= slot_of(s2, x)->0.index() < d2.len() by {
        if fresh(s0, s1, x) {
            let t = slot_of(s1, x)->0.index();
            assert(s2[x.0 as int] == s1[x.0 as int]);
            assert(d2[t] == d1[t]);
            lemma_mapped_agree(d1[t]->0, source.spec_object(x), renaming(s1), renaming(s2), cached(s1));
            lemma_all_refs_subset(source.spec_object(x), cached(s1), cached(s2));
        } else {
            assert(fresh(s1, s2, x));
        }
    }
}


/// A store that only grows keeps every cache entry valid.
pub proof fn lemma_cache_valid_grow(d0: Seq<Option<Value>>, d1: Seq<Option<Value>>, s: Seq<Option<ObjectId>>)
    requires
        cache_valid(d0, s),
        d0.len() <= d1.len(),
        forall|i: int| 0 <= i < d0.len() ==> #[trigger] d1[i] == d0[i],
    ensures
        cache_valid(d1, s),
{
    assert forall|x: ObjectId| #[trigger] slot_of(s, x) is Some implies slot_of(s, x)->0.index() < d1.len() && d1[slot_of(s, x)->0.index()] is Some by {
        assert(d1[slot_of(s, x)->0.index()] == d0[slot_of(s, x)->0.index()]);
    }
}

/// The memo of one transplantation run: slot `n` holds the destination
/// identifier that source object `n` was copied to.
#[derive(Debug)]
pub struct CopyCache {
    pub slots: Vec<Option<ObjectId>>,
}

impl CopyCache {
    /// An empty cache for copies out of `source`.
    pub fn new(source: &Document) -> (r: CopyCache)
        ensures
            r.slots@.len() == source.objects@.len(),
            forall|i: int| 0 <= i < r.slots@.len() ==> r.slots@[i] is None,
            count_none(r.slots@) == r.slots@.len(),
    {
        let mut slots: Vec<Option<ObjectId>> = Vec::new();
        let mut i: usize = 0;
        while i < source.objects.len()
            invariant
                0 <= i <= source.objects@.len(),
                slots@.len() == i,
                forall|j: int| 0 <= j < i ==> slots@[j] is None,
                count_none(slots@) == i,
            decreases source.objects@.len() - i,
        {
            proof {
                assert(slots@.push(None).drop_last() =~= slots@);
            }
            slots.push(None);
            i = i + 1;
        }
        CopyCache { slots }
    }

    /// The destination identifier recorded for source object `id`.
    pub fn get(&self, id: ObjectId) -> (r: Option<ObjectId>)
        ensures
            r == slot_of(self.slots@, id),
    {
        let n = id.0 as usize;
        if n < self.slots.len() {
            self.slots[n]
        } else {
            None
        }
    }
}

/// Copies `value` out of `source` into `dest`, with everything it references.
///
/// A referenced object is copied once per cache: its new identifier is
/// recorded before its own references are followed, so shared objects stay
/// shared and cycles end. Inline arrays and dictionaries stay inline; stream
/// payloads are copied as they are.
pub fn transplant(source: &Document, value: &Value, dest: &mut Document, cache: &mut CopyCache) -> (r: Result<Value, Error>)
    requires
        old(cache).slots@.len() == source.objects@.len(),
        cache_valid(old(dest).objects@, old(cache).slots@),
        old(dest).objects@.len() + count_none(old(cache).slots@) < u32::MAX,
    ensures
        extends(old(cache).slots@, final(cache).slots@),
        final(dest).root == old(dest).root,
        final(dest).info == old(dest).info,
        r matches Ok(v) ==> {
            &&& progress(*source, old(dest).objects@, old(cache).slots@, final(dest).objects@, final(cache).slots@)
            &&& cache_valid(final(dest).objects@, final(cache).slots@)
            &&& mapped(v, *value, renaming(final(cache).slots@))
            &&& all_refs(*value, cached(final(cache).slots@))
        },
        r matches Err(e) ==> dangling_reached(*source, *value, old(cache).slots@, final(cache).slots@, e),
        closed(*source) && all_refs(*value, resolvable(*source)) ==> r is Ok,
        value matches Value::Reference(x) ==> {
            &&& slot_of(old(cache).slots@, *x) matches Some(t) ==> {
                &&& r == Ok::<Value, Error>(Value::Reference(t))
                &&& final(dest).objects@ == old(dest).objects@
                &&& final(cache).slots@ == old(cache).slots@
            }
            &&& r is Ok ==> r == Ok::<Value, Error>(Value::Reference(slot_of(final(cache).slots@, *x)->0))
        },
    decreases count_none(cache.slots@), *value,
{
    let ghost d0 = dest.objects@;
    let ghost s0 = cache.slots@;
    match value {
        Value::Reference(id) => {
            match cache.get(*id) {
                Some(t) => {
                    proof {
                        assert(cached(s0).contains(*id));
                    }
                    Ok(Value::Reference(t))
                },
                None => {
                    match source.get_object(*id) {
                        None => {
                            proof {
                                assert(!all_refs(*value, crate::object::all_but(*id)));
                            }
                            Err(Error::DanglingReference(*id))
                        },
                        Some(obj) => {
                            proof {
                                lemma_count_fill(s0, id.index(), ObjectId(d0.len() as u32));
                            }
                            let t = dest.add_object(Value::Null);
                            cache.slots.set(id.0 as usize, Some(t));
                            let ghost d1 = dest.objects@;
                            let ghost s1 = cache.slots@;
                            assert(fresh(s0, s1, *id));
                            assert forall|x: ObjectId| #[trigger] slot_of(s1, x) is Some implies slot_of(s1, x)->0.index() < d1.len() && d1[slot_of(s1, x)->0.index()] is Some by {
                                if x != *id {
                                    assert(slot_of(s1, x) == slot_of(s0, x));
                                    assert(d1[slot_of(s0, x)->0.index()] == d0[slot_of(s0, x)->0.index()]);
                                }
                            }
                            let res = transplant(source, obj, dest, cache);
                            let ghost d2 = dest.objects@;
                            let ghost s2 = cache.slots@;
                            match res {
                                Err(e) => {
                                    proof {
                                        if let Error::DanglingReference(bad) = e {
                                            if refers_to(*obj, bad) {
                                                assert(fresh(s0, s2, *id));
                                            } else {
                                                let x = choose|x: ObjectId| #[trigger] fresh(s1, s2, x) && refers_to(source.spec_object(x), bad);
                                                assert(fresh(s0, s2, x));
                                            }
                                        }
                                    }
                                    Err(e)
                                },
                                Ok(v) => {
                                    dest.set_object(t, v);
                                    proof {
                                        let d3 = dest.objects@;
                                        assert(s2[id.index()] == Some(t));
                                        assert forall|x: ObjectId| #[trigger] fresh(s0, s2, x) implies copied(*source, d3, s2, x)
                                            && d0.len() <= slot_of(s2, x)->0.index() < d3.len() by {
                                            if x != *id {
                                                assert(fresh(s1, s2, x));
                                                assert(d3[slot_of(s2, x)->0.index()] == d2[slot_of(s2, x)->0.index()]);
                                            }
                                        }
                                        assert forall|x: ObjectId| #[trigger] slot_of(s2, x) is Some implies slot_of(s2, x)->0.index() < d3.len() && d3[slot_of(s2, x)->0.index()] is Some by {
                                            assert(slot_of(s2, x)->0.index() < d2.len());
                                        }
                                        assert forall|i: int| 0 <= i < d0.len() implies #[trigger] d3[i] == d0[i] by {
                                            assert(d2[i] == d1[i]);
                                        }
                                    }
                                    Ok(Value::Reference(t))
                                },
                            }
                        },
                    }
                },
            }
        },
        Value::Array(a) => {
            let mut out: Vec<Value> = Vec::new();
            let mut i: usize = 0;
            while i < a.len()
                invariant
                    *value == Value::Array(*a),
                    d0 == old(dest).objects@,
                    s0 == old(cache).slots@,
                    0 <= i <= a@.len(),
                    out@.len() == i,
                    cache.slots@.len() == source.objects@.len(),
                    cache_valid(dest.objects@, cache.slots@),
                    dest.objects@.len() + count_none(cache.slots@) < u32::MAX,
                    progress(*source, d0, s0, dest.objects@, cache.slots@),
                    dest.root == old(dest).root,
                    dest.info == old(dest).info,
                    forall|j: int| 0 <= j < i ==> #[trigger] mapped(out@[j], a@[j], renaming(cache.slots@)),
                    forall|j: int| 0 <= j < i ==> #[trigger] all_refs(a@[j], cached(cache.slots@)),
                decreases a@.len() - i,
            {
                let ghost d1 = dest.objects@;
                let ghost s1 = cache.slots@;
                proof {
                    lemma_count_extends(s0, s1);
                    assert(decreases_to!(*value => value->Array_0));
                    assert(decreases_to!(value->Array_0 => a@[i as int]));
                    assert(decreases_to!(count_none(s0), *value => count_none(s1), a@[i as int]));
                }
                let res = transplant(source, &a[i], dest, cache);
                let ghost s2 = cache.slots@;
                match res {
                    Err(e) => {
                        proof {
                            assert(extends(s0, s2));
                            if let Error::DanglingReference(bad) = e {
                                if !refers_to(a@[i as int], bad) {
                                    let x = choose|x: ObjectId| #[trigger] fresh(s1, s2, x) && refers_to(source.spec_object(x), bad);
                                    assert(fresh(s0, s2, x));
                                }
                            }
                        }
                        return Err(e);
                    },
                    Ok(v) => {
                        proof {
                            lemma_progress_trans(*source, d0, s0, d1, s1, dest.objects@, s2);
                            lemma_extends_agree(s1, s2);
                            assert forall|j: int| 0 <= j < i implies #[trigger] mapped(out@[j], a@[j], renaming(s2)) by {
                                lemma_mapped_agree(out@[j], a@[j], renaming(s1), renaming(s2), cached(s1));
                            }
                            assert forall|j: int| 0 <= j < i implies #[trigger] all_refs(a@[j], cached(s2)) by {
                                lemma_all_refs_subset(a@[j], cached(s1), cached(s2));
                            }
                        }
                        out.push(v);
                    },
                }
                i = i + 1;
            }
            let r = Value::Array(out);
            proof {
                let s2 = cache.slots@;
                assert(forall|j: int| 0 <= j < a.len() ==> mapped(out@[j], a@[j], renaming(s2)));
                assert(forall|j: int| 0 <= j < a.len() ==> all_refs(a@[j], cached(s2)));
            }
            Ok(r)
        },
        Value::Dictionary(d) => {
            proof {
                assert(decreases_to!(*value => value->Dictionary_0));
                assert(decreases_to!(value->Dictionary_0 => d.entries));
            }
            match transplant_entries(source, &d.entries, dest, cache) {
                Ok(out) => Ok(Value::Dictionary(Dictionary { entries: out })),
                Err(e) => Err(e),
            }
        },
        Value::Stream(st) => {
            proof {
                assert(decreases_to!(*value => value->Stream_0));
                assert(decreases_to!(value->Stream_0 => st.dict));
                assert(decreases_to!(st.dict => st.dict.entries));
            }
            match transplant_entries(source, &st.dict.entries, dest, cache) {
                Ok(out) => {
                    let content = crate::object::copy_content(&st.content);
                    let r = Value::Stream(Stream { dict: Dictionary { entries: out }, content });
                    proof {
                        let s2 = cache.slots@;
                        let y = st.dict.entries;
                        assert(forall|j: int| 0 <= j < y.len() ==> out@[j].0@ == y@[j].0@);
                        assert(forall|j: int| 0 <= j < y.len() ==> mapped(out@[j].1, y@[j].1, renaming(s2)));
                        assert(forall|j: int| 0 <= j < y.len() ==> all_refs(y@[j].1, cached(s2)));
                    }
                    Ok(r)
                },
                Err(e) => {
                    proof {
                        if let Error::DanglingReference(bad) = e {
                            let y = st.dict.entries;
                            if refers_to(Value::Dictionary(Dictionary { entries: y }), bad) {
                                assert(exists|j: int| 0 <= j < y.len() && !all_refs(y@[j].1, crate::object::all_but(bad)));
                            }
                        }
                    }
                    Err(e)
                },
            }
        },
        _ => {
            let r = duplicate(value);
            proof {
                lemma_mapped_agree(r, *value, identity(), renaming(s0), Set::empty());
            }
            Ok(r)
        },
    }
}

/// Copies the entries of a dictionary as `transplant` copies a value.
fn transplant_entries(
    source: &Document,
    entries: &Vec<(String, Value)>,
    dest: &mut Document,
    cache: &mut CopyCache,
) -> (r: Result<Vec<(String, Value)>, Error>)
    requires
        old(cache).slots@.len() == source.objects@.len(),
        cache_valid(old(dest).objects@, old(cache).slots@),
        old(dest).objects@.len() + count_none(old(cache).slots@) < u32::MAX,
    ensures
        extends(old(cache).slots@, final(cache).slots@),
        final(dest).root == old(dest).root,
        final(dest).info == old(dest).info,
        r matches Ok(out) ==> {
            &&& progress(*source, old(dest).objects@, old(cache).slots@, final(dest).objects@, final(cache).slots@)
            &&& cache_valid(final(dest).objects@, final(cache).slots@)
            &&& mapped(
                Value::Dictionary(Dictionary { entries: out }),
                Value::Dictionary(Dictionary { entries: *entries }),
                renaming(final(cache).slots@),
            )
            &&& all_refs(Value::Dictionary(Dictionary { entries: *entries }), cached(final(cache).slots@))
        },
        r matches Err(e) ==> dangling_reached(
            *source,
            Value::Dictionary(Dictionary { entries: *entries }),
            old(cache).slots@,
            final(cache).slots@,
            e,
        ),
        closed(*source) && all_refs(Value::Dictionary(Dictionary { entries: *entries }), resolvable(*source)) ==> r is Ok,
    decreases count_none(cache.slots@), *entries,
{
    let ghost d0 = dest.objects@;
    let ghost s0 = cache.slots@;
    let mut out: Vec<(String, Value)> = Vec::new();
    let mut i: usize = 0;
    while i < entries.len()
        invariant
            d0 == old(dest).objects@,
            s0 == old(cache).slots@,
            0 <= i <= entries@.len(),
            out@.len() == i,
            cache.slots@.len() == source.objects@.len(),
            cache_valid(dest.objects@, cache.slots@),
            dest.objects@.len() + count_none(cache.slots@) < u32::MAX,
            progress(*source, d0, s0, dest.objects@, cache.slots@),
            dest.root == old(dest).root,
            dest.info == old(dest).info,
            forall|j: int| 0 <= j < i ==> #[trigger] out@[j].0@ == entries@[j].0@,
            forall|j: int| 0 <= j < i ==> #[trigger] mapped(out@[j].1, entries@[j].1, renaming(cache.slots@)),
            forall|j: int| 0 <= j < i ==> #[trigger] all_refs(entries@[j].1, cached(cache.slots@)),
        decreases entries@.len() - i,
    {
        let ghost d1 = dest.objects@;
        let ghost s1 = cache.slots@;
        proof {
            lemma_count_extends(s0, s1);
            assert(decreases_to!(*entries => entries@));
            assert(decreases_to!(entries@ => entries@[i as int]));
            assert(decreases_to!(entries@[i as int] => entries@[i as int].1));
        }
        let key = copy_string(&entries[i].0);
        let res = transplant(source, &entries[i].1, dest, cache);
        let ghost s2 = cache.slots@;
        match res {
            Err(e) => {
                proof {
                    if let Error::DanglingReference(bad) = e {
                        if !refers_to(entries@[i as int].1, bad) {
                            let x = choose|x: ObjectId| #[trigger] fresh(s1, s2, x) && refers_to(source.spec_object(x), bad);
                            assert(fresh(s0, s2, x));
                        } else {
                            let dv = Value::Dictionary(Dictionary { entries: *entries });
                            assert(dv->Dictionary_0.entries@[i as int] == entries@[i as int]);
                            assert(!all_refs(dv, crate::object::all_but(bad)));
                        }
                    }
                }
                assert(extends(s0, s2));
                return Err(e);
            },
            Ok(v) => {
                proof {
                    lemma_progress_trans(*source, d0, s0, d1, s1, dest.objects@, s2);
                    lemma_extends_agree(s1, s2);
                    assert forall|j: int| 0 <= j < i implies #[trigger] mapped(out@[j].1, entries@[j].1, renaming(s2)) by {
                        lemma_mapped_agree(out@[j].1, entries@[j].1, renaming(s1), renaming(s2), cached(s1));
                    }
                    assert forall|j: int| 0 <= j < i implies #[trigger] all_refs(entries@[j].1, cached(s2)) by {
                        lemma_all_refs_subset(entries@[j].1, cached(s1), cached(s2));
                    }
                }
                let ghost pair = (key, v);
                out.push((key, v));
                assert(out@[i as int] == pair);
            },
        }
        i = i + 1;
    }
    proof {
        let s2 = cache.slots@;
        assert(forall|j: int| 0 <= j < entries.len() ==> out@[j].0@ == entries@[j].0@);
        assert(forall|j: int| 0 <= j < entries.len() ==> mapped(out@[j].1, entries@[j].1, renaming(s2)));
        assert(forall|j: int| 0 <= j < entries.len() ==> all_refs(entries@[j].1, cached(s2)));
    }
    Ok(out)
}

} // verus!
