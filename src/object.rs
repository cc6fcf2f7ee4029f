//! The document object model: values, dictionaries, streams and the object store.
use vstd::prelude::*;

verus! {

/// Identifies one object inside one document by its object number.
#[derive(Clone, Copy, PartialEq, Eq, Structural, Debug, Hash)]
pub struct ObjectId(pub u32);

impl ObjectId {
    /// The object number as an index into the object store.
    pub open spec fn index(self) -> int {
        self.0 as int
    }
}

/// What went wrong while compositing.
#[derive(Clone, Copy, PartialEq, Eq, Structural, Debug)]
pub enum Error {
    /// A reference names no object of its document.
    DanglingReference(ObjectId),
    /// The object is not a page dictionary.
    NotAPage(ObjectId),
    /// The page has no usable MediaBox.
    BadMediaBox(ObjectId),
    /// The page has no `Contents` that is a stream reference or an array.
    MissingContents(ObjectId),
    /// The font file could not be parsed.
    UnreadableFont,
}

/// A decimal number, `mantissa × 10^(−scale)`.
#[derive(Clone, Copy, PartialEq, Eq, Structural, Debug)]
pub struct Decimal {
    pub mantissa: i64,
    pub scale: u32,
}

/// One value of the object graph.
#[derive(Debug, PartialEq)]
pub enum Value {
    Null,
    Boolean(bool),
    Integer(i64),
    Real(Decimal),
    String(Vec<u8>),
    Name(String),
    Array(Vec<Value>),
    Dictionary(Dictionary),
    Reference(ObjectId),
    Stream(Stream),
}

/// A mapping from names to values; the first entry with a given key is the one that counts.
#[derive(Debug, PartialEq)]
pub struct Dictionary {
    pub entries: Vec<(String, Value)>,
}

/// A stream: its dictionary and its payload.
#[derive(Debug, PartialEq)]
pub struct Stream {
    pub dict: Dictionary,
    pub content: StreamContent,
}

/// The payload of a stream: opaque bytes, or drawing operations that the
/// document writer serializes.
#[derive(Debug, PartialEq)]
pub enum StreamContent {
    Bytes(Vec<u8>),
    Operations(Vec<Operation>),
}

/// One drawing operation of a content stream.
#[derive(Debug, PartialEq)]
pub struct Operation {
    pub operator: String,
    pub operands: Vec<Value>,
}

/// `a` is `b` with every reference `r` replaced by `f(r)`; everything else equal.
/// The operations of a content stream hold direct values only and are compared as they are.
pub open spec fn mapped(a: Value, b: Value, f: spec_fn(ObjectId) -> ObjectId) -> bool
    decreases b,
{
    match (a, b) {
        (Value::Null, Value::Null) => true,
        (Value::Boolean(x), Value::Boolean(y)) => x == y,
        (Value::Integer(x), Value::Integer(y)) => x == y,
        (Value::Real(x), Value::Real(y)) => x == y,
        (Value::String(x), Value::String(y)) => x@ == y@,
        (Value::Name(x), Value::Name(y)) => x@ == y@,
        (Value::Reference(x), Value::Reference(y)) => x == f(y),
        (Value::Array(x), Value::Array(y)) => x.len() == y.len() && forall|i: int|
            0 <= i < y.len() ==> mapped(x@[i], y@[i], f),
        (Value::Dictionary(x), Value::Dictionary(y)) => x.entries.len() == y.entries.len()
            && forall|i: int|
            0 <= i < y.entries.len() ==> x.entries@[i].0@ == y.entries@[i].0@ && mapped(
                x.entries@[i].1,
                y.entries@[i].1,
                f,
            ),
        (Value::Stream(x), Value::Stream(y)) => x.dict.entries.len() == y.dict.entries.len()
            && (forall|i: int|
            0 <= i < y.dict.entries.len() ==> x.dict.entries@[i].0@ == y.dict.entries@[i].0@
                && mapped(x.dict.entries@[i].1, y.dict.entries@[i].1, f)) && match (
            x.content,
            y.content,
        ) {
            (StreamContent::Bytes(p), StreamContent::Bytes(q)) => p@ == q@,
            (StreamContent::Operations(p), StreamContent::Operations(q)) => p.len() == q.len()
                && forall|i: int|
                0 <= i < q.len() ==> operation_mapped(p@[i], q@[i], identity()),
            _ => false,
        },
        _ => false,
    }
}


/// Operation `a` is `b` with its operands mapped by `f`.
pub open spec fn operation_mapped(a: Operation, b: Operation, f: spec_fn(ObjectId) -> ObjectId) -> bool
    decreases b,
{
    a.operator@ == b.operator@ && a.operands.len() == b.operands.len() && forall|j: int|
        0 <= j < b.operands.len() ==> mapped(a.operands@[j], b.operands@[j], f)
}

/// Every reference inside `v` (not counting content operations) is in `s`.
pub open spec fn all_refs(v: Value, s: Set<ObjectId>) -> bool
    decreases v,
{
    match v {
        Value::Reference(y) => s.contains(y),
        Value::Array(x) => forall|i: int| 0 <= i < x.len() ==> all_refs(x@[i], s),
        Value::Dictionary(x) => forall|i: int|
            0 <= i < x.entries.len() ==> all_refs(x.entries@[i].1, s),
        Value::Stream(x) => forall|i: int|
            0 <= i < x.dict.entries.len() ==> all_refs(x.dict.entries@[i].1, s),
        _ => true,
    }
}

/// Every object identifier but `id`.
pub open spec fn all_but(id: ObjectId) -> Set<ObjectId> {
    Set::new(|y: ObjectId| y != id)
}

/// `v` holds a reference to `id` (not counting content operations).
pub open spec fn refers_to(v: Value, id: ObjectId) -> bool {
    !all_refs(v, all_but(id))
}

/// The identity renaming of references.
pub open spec fn identity() -> spec_fn(ObjectId) -> ObjectId {
    |r: ObjectId| r
}

/// The value that the first entry with key `key` holds, if there is one.
pub open spec fn lookup(entries: Seq<(String, Value)>, key: Seq<char>) -> Option<Value>
    decreases entries.len(),
{
    if entries.len() == 0 {
        None
    } else if entries[0].0@ == key {
        Some(entries[0].1)
    } else {
        lookup(entries.drop_first(), key)
    }
}

impl Dictionary {
    /// The value stored under `key`, in specifications.
    pub open spec fn spec_get(&self, key: Seq<char>) -> Option<Value> {
        lookup(self.entries@, key)
    }

    /// Some entry binds `key` to `v`.
    pub open spec fn spec_has(&self, key: Seq<char>, v: Value) -> bool {
        exists|i: int| 0 <= i < self.entries@.len() && self.entries@[i].0@ == key && self.entries@[i].1 == v
    }

    /// Some entry binds `key` to a name that reads `name`.
    pub open spec fn spec_has_name(&self, key: Seq<char>, name: Seq<char>) -> bool {
        exists|i: int|
            0 <= i < self.entries@.len() && self.entries@[i].0@ == key && (self.entries@[i].1 matches Value::Name(
                s,
            ) && s@ == name)
    }

    /// Some entry binds `key` to an array holding `items`.
    pub open spec fn spec_has_array(&self, key: Seq<char>, items: Seq<Value>) -> bool {
        exists|i: int|
            0 <= i < self.entries@.len() && self.entries@[i].0@ == key && (self.entries@[i].1 matches Value::Array(
                a,
            ) && a@ == items)
    }

    /// An empty dictionary.
    pub fn new() -> (r: Dictionary)
        ensures
            r.entries@.len() == 0,
    {
        Dictionary { entries: Vec::new() }
    }

    /// The value stored under `key`.
    pub fn get(&self, key: &str) -> (r: Option<&Value>)
        ensures
            r matches Some(v) ==> self.spec_get(key@) == Some(*v),
            r is None ==> self.spec_get(key@) is None,
    {
        let mut i: usize = 0;
        assert(self.entries@.subrange(0, self.entries@.len() as int) =~= self.entries@);
        while i < self.entries.len()
            invariant
                0 <= i <= self.entries@.len(),
                lookup(self.entries@, key@) == lookup(self.entries@.subrange(i as int, self.entries@.len() as int), key@),
            decreases self.entries@.len() - i,
        {
            let ghost rest = self.entries@.subrange(i as int, self.entries@.len() as int);
            if str_eq(self.entries[i].0.as_str(), key) {
                return Some(&self.entries[i].1);
            }
            assert(rest.drop_first() =~= self.entries@.subrange(i + 1, self.entries@.len() as int));
            i = i + 1;
        }
        assert(self.entries@.subrange(i as int, self.entries@.len() as int).len() == 0);
        None
    }

    /// The index of the first entry with key `key`.
    pub fn position(&self, key: &str) -> (r: Option<usize>)
        ensures
            r matches Some(j) ==> j < self.entries@.len() && self.entries@[j as int].0@ == key@
                && self.spec_get(key@) == Some(self.entries@[j as int].1),
            forall|i: int|
                0 <= i < self.entries@.len() && (r is None || i < r->0) ==> self.entries@[i].0@ != key@,
            r is None ==> self.spec_get(key@) is None,
    {
        let mut i: usize = 0;
        while i < self.entries.len()
            invariant
                0 <= i <= self.entries@.len(),
                forall|j: int| 0 <= j < i ==> self.entries@[j].0@ != key@,
            decreases self.entries@.len() - i,
        {
            if str_eq(self.entries[i].0.as_str(), key) {
                proof {
                    lemma_lookup_index(self.entries@, key@, i as int);
                }
                return Some(i);
            }
            i = i + 1;
        }
        proof {
            lemma_lookup_index(self.entries@, key@, -1);
        }
        None
    }

    /// Stores `value` under `key`, replacing the first entry with that key or
    /// appending a new one.
    pub fn set(&mut self, key: String, value: Value)
        ensures
            final(self).spec_get(key@) == Some(value),
            forall|k: Seq<char>| k != key@ ==> #[trigger] final(self).spec_get(k) == old(self).spec_get(k),
    {
        let mut i: usize = 0;
        while i < self.entries.len()
            invariant
                0 <= i <= self.entries@.len(),
                self.entries@ == old(self).entries@,
                forall|j: int| 0 <= j < i ==> self.entries@[j].0@ != key@,
            decreases self.entries@.len() - i,
        {
            if str_eq(self.entries[i].0.as_str(), key.as_str()) {
                proof {
                    lemma_lookup_update(self.entries@, i as int, key, value);
                }
                self.entries.set(i, (key, value));
                return;
            }
            i = i + 1;
        }
        proof {
            lemma_lookup_push(self.entries@, key, value);
        }
        self.entries.push((key, value));
    }
}

/// Every key of the entries differs from every other.
pub open spec fn keys_unique(entries: Seq<(String, Value)>) -> bool {
    forall|i: int, j: int| 0 <= i < j < entries.len() ==> entries[i].0@ != entries[j].0@
}

/// Appending an entry leaves the keys already present as they read.
pub proof fn lemma_lookup_append(entries: Seq<(String, Value)>, e: (String, Value), key: Seq<char>)
    ensures
        lookup(entries.push(e), key) == match lookup(entries, key) {
            Some(v) => Some(v),
            None => if e.0@ == key {
                Some(e.1)
            } else {
                None
            },
        },
    decreases entries.len(),
{
    let u = entries.push(e);
    if entries.len() > 0 {
        lemma_lookup_append(entries.drop_first(), e, key);
        assert(u.drop_first() =~= entries.drop_first().push(e));
        assert(u[0] == entries[0]);
    } else {
        assert(u.drop_first().len() == 0);
        assert(lookup(u.drop_first(), key) is None);
        assert(u[0] == e);
    }
}

/// The first index holding a key is where lookup reads; no index means nothing is read.
pub proof fn lemma_lookup_index(entries: Seq<(String, Value)>, key: Seq<char>, j: int)
    requires
        j == -1 || (0 <= j < entries.len() && entries[j].0@ == key),
        forall|i: int| 0 <= i < entries.len() && (j == -1 || i < j) ==> entries[i].0@ != key,
    ensures
        j == -1 ==> lookup(entries, key) is None,
        j != -1 ==> lookup(entries, key) == Some(entries[j].1),
    decreases entries.len(),
{
    if entries.len() > 0 && j != 0 {
        let k = if j == -1 {
            -1
        } else {
            j - 1
        };
        lemma_lookup_index(entries.drop_first(), key, k);
    }
}

/// Replacing the entry at the first index holding a key changes what that key
/// reads and nothing else.
pub proof fn lemma_lookup_update(entries: Seq<(String, Value)>, i: int, key: String, value: Value)
    requires
        0 <= i < entries.len(),
        entries[i].0@ == key@,
        forall|j: int| 0 <= j < i ==> entries[j].0@ != key@,
    ensures
        lookup(entries.update(i, (key, value)), key@) == Some(value),
        forall|k: Seq<char>| k != key@ ==> #[trigger] lookup(entries.update(i, (key, value)), k) == lookup(entries, k),
    decreases i,
{
    let u = entries.update(i, (key, value));
    if i > 0 {
        lemma_lookup_update(entries.drop_first(), i - 1, key, value);
        assert(u.drop_first() =~= entries.drop_first().update(i - 1, (key, value)));
    }
    assert forall|k: Seq<char>| k != key@ implies #[trigger] lookup(u, k) == lookup(entries, k) by {
        if i > 0 {
            assert(lookup(entries.drop_first().update(i - 1, (key, value)), k) == lookup(entries.drop_first(), k));
        } else {
            assert(u.drop_first() =~= entries.drop_first());
        }
    }
}

/// Appending an entry makes its key read its value where the key was absent.
pub proof fn lemma_lookup_push(entries: Seq<(String, Value)>, key: String, value: Value)
    requires
        forall|j: int| 0 <= j < entries.len() ==> entries[j].0@ != key@,
    ensures
        lookup(entries.push((key, value)), key@) == Some(value),
        forall|k: Seq<char>| k != key@ ==> #[trigger] lookup(entries.push((key, value)), k) == lookup(entries, k),
    decreases entries.len(),
{
    let u = entries.push((key, value));
    if entries.len() > 0 {
        lemma_lookup_push(entries.drop_first(), key, value);
        assert(u.drop_first() =~= entries.drop_first().push((key, value)));
    }
    assert forall|k: Seq<char>| k != key@ implies #[trigger] lookup(u, k) == lookup(entries, k) by {
        if entries.len() > 0 {
            assert(u[0] == entries[0]);
            assert(lookup(entries.drop_first().push((key, value)), k) == lookup(entries.drop_first(), k));
        } else {
            assert(u.drop_first().len() == 0);
            assert(lookup(u.drop_first(), k) is None);
        }
    }
}

/// A copy of a byte string.
pub fn copy_bytes(b: &Vec<u8>) -> (r: Vec<u8>)
    ensures
        r@ == b@,
{
    vstd::slice::slice_to_vec(b.as_slice())
}

/// A copy of a string.
pub fn copy_string(s: &String) -> (r: String)
    ensures
        r@ == s@,
{
    s.as_str().to_owned()
}

/// The value an optional reference points to.
pub open spec fn deref_opt(v: Option<&Value>) -> Option<Value> {
    match v {
        Some(x) => Some(*x),
        None => None,
    }
}

/// A deep copy of a value.
pub fn duplicate(v: &Value) -> (r: Value)
    ensures
        mapped(r, *v, identity()),
    decreases v,
{
    match v {
        Value::Null => Value::Null,
        Value::Boolean(b) => Value::Boolean(*b),
        Value::Integer(n) => Value::Integer(*n),
        Value::Real(d) => Value::Real(*d),
        Value::String(b) => Value::String(copy_bytes(b)),
        Value::Name(n) => Value::Name(copy_string(n)),
        Value::Reference(id) => Value::Reference(*id),
        Value::Array(a) => {
            let mut out: Vec<Value> = Vec::new();
            let mut i: usize = 0;
            while i < a.len()
                invariant
                    *v == Value::Array(*a),
                    0 <= i <= a@.len(),
                    out@.len() == i,
                    forall|j: int| 0 <= j < i ==> #[trigger] mapped(out@[j], a@[j], identity()),
                decreases a@.len() - i,
            {
                proof {
                    assert(decreases_to!(*v => v->Array_0));
                    assert(decreases_to!(v->Array_0 => a@[i as int]));
                }
                out.push(duplicate(&a[i]));
                i = i + 1;
            }
            assert(forall|j: int| 0 <= j < a.len() ==> mapped(out@[j], a@[j], identity()));
            Value::Array(out)
        },
        Value::Dictionary(d) => {
            let mut out: Vec<(String, Value)> = Vec::new();
            let mut i: usize = 0;
            while i < d.entries.len()
                invariant
                    *v == Value::Dictionary(*d),
                    0 <= i <= d.entries@.len(),
                    out@.len() == i,
                    forall|j: int| 0 <= j < i ==> #[trigger] out@[j].0@ == d.entries@[j].0@,
                    forall|j: int| 0 <= j < i ==> #[trigger] mapped(out@[j].1, d.entries@[j].1, identity()),
                decreases d.entries@.len() - i,
            {
                proof {
                    assert(decreases_to!(*v => v->Dictionary_0));
                    assert(decreases_to!(v->Dictionary_0 => d.entries));
                    assert(decreases_to!(d.entries => d.entries@));
                    assert(decreases_to!(d.entries@ => d.entries@[i as int]));
                    assert(decreases_to!(d.entries@[i as int] => d.entries@[i as int].1));
                }
                let key = copy_string(&d.entries[i].0);
                let item = duplicate(&d.entries[i].1);
                let ghost pair = (key, item);
                out.push((key, item));
                assert(out@[i as int] == pair);
                i = i + 1;
            }
            assert(forall|j: int| 0 <= j < d.entries.len() ==> out@[j].0@ == d.entries@[j].0@);
            assert(forall|j: int| 0 <= j < d.entries.len() ==> mapped(out@[j].1, d.entries@[j].1, identity()));
            Value::Dictionary(Dictionary { entries: out })
        },
        Value::Stream(st) => {
            let mut out: Vec<(String, Value)> = Vec::new();
            let mut i: usize = 0;
            while i < st.dict.entries.len()
                invariant
                    *v == Value::Stream(*st),
                    0 <= i <= st.dict.entries@.len(),
                    out@.len() == i,
                    forall|j: int| 0 <= j < i ==> #[trigger] out@[j].0@ == st.dict.entries@[j].0@,
                    forall|j: int| 0 <= j < i ==> #[trigger] mapped(out@[j].1, st.dict.entries@[j].1, identity()),
                decreases st.dict.entries@.len() - i,
            {
                proof {
                    assert(decreases_to!(*v => v->Stream_0));
                    assert(decreases_to!(v->Stream_0 => st.dict));
                    assert(decreases_to!(st.dict => st.dict.entries));
                    assert(decreases_to!(st.dict.entries => st.dict.entries@));
                    assert(decreases_to!(st.dict.entries@ => st.dict.entries@[i as int]));
                    assert(decreases_to!(st.dict.entries@[i as int] => st.dict.entries@[i as int].1));
                }
                let key = copy_string(&st.dict.entries[i].0);
                let item = duplicate(&st.dict.entries[i].1);
                let ghost pair = (key, item);
                out.push((key, item));
                assert(out@[i as int] == pair);
                i = i + 1;
            }
            assert(forall|j: int| 0 <= j < st.dict.entries.len() ==> out@[j].0@ == st.dict.entries@[j].0@);
            assert(forall|j: int| 0 <= j < st.dict.entries.len() ==> mapped(out@[j].1, st.dict.entries@[j].1, identity()));
            let content = copy_content(&st.content);
            Value::Stream(Stream { dict: Dictionary { entries: out }, content })
        },
    }
}

/// The payloads hold the same bytes, or the same operations.
pub open spec fn same_content(a: StreamContent, b: StreamContent) -> bool {
    match (a, b) {
        (StreamContent::Bytes(p), StreamContent::Bytes(q)) => p@ == q@,
        (StreamContent::Operations(p), StreamContent::Operations(q)) => p.len() == q.len()
            && forall|i: int| 0 <= i < q.len() ==> operation_mapped(p@[i], q@[i], identity()),
        _ => false,
    }
}

/// A deep copy of a stream payload.
pub fn copy_content(c: &StreamContent) -> (r: StreamContent)
    ensures
        same_content(r, *c),
    decreases c,
{
    match c {
        StreamContent::Bytes(b) => StreamContent::Bytes(copy_bytes(b)),
        StreamContent::Operations(ops) => {
            let mut new_ops: Vec<Operation> = Vec::new();
            let mut k: usize = 0;
            while k < ops.len()
                invariant
                    *c == StreamContent::Operations(*ops),
                    0 <= k <= ops@.len(),
                    new_ops@.len() == k,
                    forall|j: int| 0 <= j < k ==> #[trigger] operation_mapped(new_ops@[j], ops@[j], identity()),
                decreases ops@.len() - k,
            {
                proof {
                    assert(decreases_to!(*c => c->Operations_0));
                    assert(decreases_to!(ops => ops@));
                    assert(decreases_to!(ops@ => ops@[k as int]));
                }
                new_ops.push(copy_operation(&ops[k]));
                k = k + 1;
            }
            assert(forall|j: int| 0 <= j < ops.len() ==> operation_mapped(new_ops@[j], ops@[j], identity()));
            StreamContent::Operations(new_ops)
        },
    }
}

/// A deep copy of a drawing operation.
pub fn copy_operation(op: &Operation) -> (r: Operation)
    ensures
        operation_mapped(r, *op, identity()),
    decreases op,
{
    let mut operands: Vec<Value> = Vec::new();
    let mut m: usize = 0;
    while m < op.operands.len()
        invariant
            0 <= m <= op.operands@.len(),
            operands@.len() == m,
            forall|q: int| 0 <= q < m ==> #[trigger] mapped(operands@[q], op.operands@[q], identity()),
        decreases op.operands@.len() - m,
    {
        proof {
            assert(decreases_to!(*op => op.operands));
            assert(decreases_to!(op.operands => op.operands@));
            assert(decreases_to!(op.operands@ => op.operands@[m as int]));
        }
        operands.push(duplicate(&op.operands[m]));
        m = m + 1;
    }
    let r = Operation { operator: copy_string(&op.operator), operands };
    assert(forall|q: int| 0 <= q < op.operands.len() ==> mapped(operands@[q], op.operands@[q], identity()));
    r
}

/// One dictionary entry.
pub fn entry(key: &str, v: Value) -> (r: (String, Value))
    ensures
        r.0@ == key@,
        r.1 == v,
{
    (key.to_owned(), v)
}

/// A name value.
pub fn name_value(n: &str) -> (r: Value)
    ensures
        r matches Value::Name(s) && s@ == n@,
{
    Value::Name(n.to_owned())
}

/// Relies on `String::push_str`: appends the characters of `t` to `s`.
#[verifier::external_body]
pub(crate) fn push_str(s: &mut String, t: &str)
    ensures
        final(s)@ == old(s)@ + t@,
{
    s.push_str(t)
}

/// The length of the longest key.
pub open spec fn max_key_len(entries: Seq<(String, Value)>) -> nat
    decreases entries.len(),
{
    if entries.len() == 0 {
        0
    } else {
        let rest = max_key_len(entries.drop_first());
        if entries[0].0@.len() > rest {
            entries[0].0@.len()
        } else {
            rest
        }
    }
}

/// No key is longer than the longest.
pub proof fn lemma_key_len(entries: Seq<(String, Value)>, j: int)
    requires
        0 <= j < entries.len(),
    ensures
        entries[j].0@.len() <= max_key_len(entries),
    decreases j,
{
    if j > 0 {
        lemma_key_len(entries.drop_first(), j - 1);
    }
}

/// Whether two strings hold the same characters.
pub fn str_eq(a: &str, b: &str) -> (r: bool)
    ensures
        r == (a@ == b@),
{
    let x = a.to_owned();
    let y = b.to_owned();
    x == y
}


/// An object store: object number `n` is stored at index `n`; object 0 is never used.
#[derive(Debug, PartialEq)]
pub struct Document {
    pub objects: Vec<Option<Value>>,
    /// The document catalog, when one has been registered.
    pub root: Option<ObjectId>,
    /// The document information dictionary (title, author, dates), if any.
    pub info: Option<ObjectId>,
}

impl Document {
    /// Whether `id` names an object of this document.
    pub open spec fn resolves(&self, id: ObjectId) -> bool {
        (id.0 as int) < self.objects@.len() && self.objects@[id.0 as int] is Some
    }

    /// The object that `id` names, where it resolves.
    pub open spec fn spec_object(&self, id: ObjectId) -> Value {
        self.objects@[id.0 as int]->0
    }

    /// An empty document.
    pub fn new() -> (r: Document)
        ensures
            r.objects@ == seq![None::<Value>],
            r.root is None,
            r.info is None,
    {
        let mut objects: Vec<Option<Value>> = Vec::new();
        objects.push(None);
        Document { objects, root: None, info: None }
    }

    /// The object that `id` names.
    pub fn get_object(&self, id: ObjectId) -> (r: Option<&Value>)
        ensures
            r is Some <==> self.resolves(id),
            r matches Some(v) ==> *v == self.spec_object(id),
    {
        let n = id.0 as usize;
        if n < self.objects.len() {
            match &self.objects[n] {
                Some(v) => Some(v),
                None => None,
            }
        } else {
            None
        }
    }

    /// Stores `v` under a fresh object number.
    pub fn add_object(&mut self, v: Value) -> (id: ObjectId)
        requires
            old(self).objects@.len() < u32::MAX,
        ensures
            id.0 == old(self).objects@.len(),
            final(self).objects@ == old(self).objects@.push(Some(v)),
            final(self).root == old(self).root,
            final(self).info == old(self).info,
    {
        let id = ObjectId(self.objects.len() as u32);
        self.objects.push(Some(v));
        id
    }

    /// Removes the object stored under `id` and hands it out.
    pub fn take_object(&mut self, id: ObjectId) -> (r: Option<Value>)
        requires
            (id.0 as int) < old(self).objects@.len(),
        ensures
            r == old(self).objects@[id.index()],
            final(self).objects@ == old(self).objects@.update(id.index(), None),
            final(self).root == old(self).root,
            final(self).info == old(self).info,
    {
        let v = self.objects.remove(id.0 as usize);
        self.objects.insert(id.0 as usize, None);
        proof {
            assert(self.objects@ =~= old(self).objects@.update(id.index(), None));
        }
        v
    }

    /// Replaces the object stored under `id`.
    pub fn set_object(&mut self, id: ObjectId, v: Value)
        requires
            (id.0 as int) < old(self).objects@.len(),
        ensures
            final(self).objects@ == old(self).objects@.update(id.0 as int, Some(v)),
            final(self).root == old(self).root,
            final(self).info == old(self).info,
    {
        self.objects.set(id.0 as usize, Some(v));
    }
}

} // verus!
