//! Reading the drawing operations of a page's content streams.
use vstd::prelude::*;
use crate::object::{deref_opt, Document, Operation, StreamContent, Value, identity, operation_mapped};

verus! {

/// The operations that the stream `v` names in `doc` holds, if it names a
/// stream whose operations are known.
pub open spec fn stream_ops(doc: Document, v: Value) -> Option<Seq<Operation>> {
    match v {
        Value::Reference(id) => if doc.resolves(id) {
            match doc.spec_object(id) {
                Value::Stream(st) => match st.content {
                    StreamContent::Operations(ops) => Some(ops@),
                    _ => None,
                },
                _ => None,
            }
        } else {
            None
        },
        _ => None,
    }
}

/// The operations of a list of stream references, in order; a stream whose
/// operations are not known adds none.
pub open spec fn list_ops(doc: Document, refs: Seq<Value>) -> Seq<Operation>
    decreases refs.len(),
{
    if refs.len() == 0 {
        seq![]
    } else {
        list_ops(doc, refs.drop_last()) + match stream_ops(doc, refs.last()) {
            Some(ops) => ops,
            None => seq![],
        }
    }
}

/// Whether every stream of the list has known operations.
pub open spec fn list_complete(doc: Document, refs: Seq<Value>) -> bool {
    forall|i: int| 0 <= i < refs.len() ==> #[trigger] stream_ops(doc, refs[i]) is Some
}

/// The operations of a page's `Contents`: one stream reference, or an array
/// of them read in order as one stream. Any other shape reads as nothing.
pub open spec fn contents_ops(doc: Document, contents: Option<Value>) -> Seq<Operation> {
    match contents {
        Some(Value::Reference(id)) => list_ops(doc, seq![Value::Reference(id)]),
        Some(Value::Array(a)) => list_ops(doc, a@),
        _ => seq![],
    }
}

/// Whether the `Contents` was read in full.
pub open spec fn contents_complete(doc: Document, contents: Option<Value>) -> bool {
    match contents {
        Some(Value::Reference(id)) => list_complete(doc, seq![Value::Reference(id)]),
        Some(Value::Array(a)) => list_complete(doc, a@),
        _ => false,
    }
}

/// `a` holds copies of the operations of `b`, in order.
pub open spec fn same_ops(a: Seq<Operation>, b: Seq<Operation>) -> bool {
    a.len() == b.len() && forall|i: int| 0 <= i < b.len() ==> #[trigger] operation_mapped(a[i], b[i], identity())
}

/// `a` is `prefix` followed by copies of `ops`.
pub open spec fn appended(a: Seq<Operation>, prefix: Seq<Operation>, ops: Seq<Operation>) -> bool {
    &&& a.len() == prefix.len() + ops.len()
    &&& forall|j: int| 0 <= j < prefix.len() ==> #[trigger] a[j] == prefix[j]
    &&& forall|j: int| 0 <= j < ops.len() ==> #[trigger] operation_mapped(a[prefix.len() + j], ops[j], identity())
}

/// Appends copies of the operations of the stream `v` names, if known.
fn append_stream_ops(doc: &Document, v: &Value, out: &mut Vec<Operation>) -> (known: bool)
    ensures
        known == stream_ops(*doc, *v) is Some,
        appended(final(out)@, old(out)@, match stream_ops(*doc, *v) {
            Some(ops) => ops,
            None => seq![],
        }),
{
    let ops = match v {
        Value::Reference(id) => match doc.get_object(*id) {
            Some(Value::Stream(st)) => match &st.content {
                StreamContent::Operations(ops) => ops,
                _ => return false,
            },
            _ => return false,
        },
        _ => return false,
    };
    let ghost start = out@;
    let mut i: usize = 0;
    while i < ops.len()
        invariant
            0 <= i <= ops@.len(),
            out@.len() == start.len() + i,
            forall|j: int| 0 <= j < start.len() ==> out@[j] == start[j],
            forall|j: int| 0 <= j < i ==> #[trigger] operation_mapped(out@[start.len() + j], ops@[j], identity()),
        decreases ops@.len() - i,
    {
        out.push(crate::object::copy_operation(&ops[i]));
        i = i + 1;
    }
    assert(forall|j: int| 0 <= j < ops.len() ==> operation_mapped(out@[start.len() + j], ops@[j], identity()));
    true
}


/// Reads the drawing operations of a page's `Contents`: a single stream, or
/// an array of streams read in order as one. Returns copies of the
/// operations and whether every stream was read; a stream whose operations
/// are not known, or a `Contents` of another shape, reads as nothing.
pub fn read_operations(doc: &Document, contents: Option<&Value>) -> (r: (Vec<Operation>, bool))
    ensures
        same_ops(r.0@, contents_ops(*doc, deref_opt(contents))),
        r.1 == contents_complete(*doc, deref_opt(contents)),
{
    let mut out: Vec<Operation> = Vec::new();
    match contents {
        Some(Value::Reference(id)) => {
            let v = Value::Reference(*id);
            let known = append_stream_ops(doc, &v, &mut out);
            proof {
                let refs = seq![Value::Reference(*id)];
                assert(refs.drop_last() =~= Seq::<Value>::empty());
                assert(refs.last() == v);
                assert(list_ops(*doc, refs.drop_last()) =~= Seq::<Operation>::empty());
                assert(list_ops(*doc, refs) =~= match stream_ops(*doc, v) {
                    Some(ops) => ops,
                    None => seq![],
                });
                assert(refs[0] == v);
                let tail = match stream_ops(*doc, v) {
                    Some(ops) => ops,
                    None => seq![],
                };
                assert forall|j: int| 0 <= j < tail.len() implies #[trigger] operation_mapped(out@[j], tail[j], identity()) by {
                    assert(operation_mapped(out@[0 + j], tail[j], identity()));
                }
            }
            (out, known)
        },
        Some(Value::Array(a)) => {
            let mut complete = true;
            let mut i: usize = 0;
            assert(a@.subrange(0, 0) =~= Seq::<Value>::empty());
            while i < a.len()
                invariant
                    0 <= i <= a@.len(),
                    same_ops(out@, list_ops(*doc, a@.subrange(0, i as int))),
                    complete == list_complete(*doc, a@.subrange(0, i as int)),
                decreases a@.len() - i,
            {
                let ghost before = out@;
                let known = append_stream_ops(doc, &a[i], &mut out);
                proof {
                    let sub = a@.subrange(0, i + 1);
                    assert(sub.drop_last() =~= a@.subrange(0, i as int));
                    assert(sub.last() == a@[i as int]);
                    let tail = match stream_ops(*doc, a@[i as int]) {
                        Some(ops) => ops,
                        None => seq![],
                    };
                    let l0 = list_ops(*doc, a@.subrange(0, i as int));
                    assert(list_ops(*doc, sub) == l0 + tail);
                    assert forall|j: int| 0 <= j < (l0 + tail).len() implies #[trigger] operation_mapped(out@[j], (l0 + tail)[j], identity()) by {
                        if j < l0.len() {
                            assert(out@[j] == before[j]);
                        } else {
                            assert(operation_mapped(out@[before.len() + (j - l0.len())], tail[j - l0.len()], identity()));
                        }
                    }
                    assert(list_complete(*doc, sub) == (list_complete(*doc, a@.subrange(0, i as int)) && known)) by {
                        if list_complete(*doc, sub) {
                            assert(stream_ops(*doc, sub[i as int]) is Some);
                            assert forall|j: int| 0 <= j < i implies #[trigger] stream_ops(*doc, a@.subrange(0, i as int)[j]) is Some by {
                                assert(stream_ops(*doc, sub[j]) is Some);
                            }
                        }
                        if list_complete(*doc, a@.subrange(0, i as int)) && known {
                            assert forall|j: int| 0 <= j < i + 1 implies #[trigger] stream_ops(*doc, sub[j]) is Some by {
                                if j < i {
                                    assert(stream_ops(*doc, a@.subrange(0, i as int)[j]) is Some);
                                }
                            }
                        }
                    }
                }
                complete = complete && known;
                i = i + 1;
            }
            assert(a@.subrange(0, a@.len() as int) =~= a@);
            (out, complete)
        },
        _ => (out, false),
    }
}

} // verus!
