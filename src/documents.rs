//! Document writes against a full-text index, decided here and carried out
//! by the caller on the index writer. Each document is keyed by its id: an
//! add first deletes whatever the index holds under that id.
use vstd::prelude::*;

verus! {

/// A stored document: its unique id and its text.
pub struct Document {
    pub id: String,
    pub text: String,
}

/// One operation on the index writer.
pub enum WriteOp {
    /// Delete every document whose id field holds this id.
    DeleteId(String),
    /// Add this document.
    Add(Document),
    /// Commit the pending operations.
    Commit,
}

/// Why a write was refused.
#[derive(Debug, Clone, Copy, PartialEq, Eq, Structural)]
pub enum StoreError {
    /// The index has not been opened.
    NotInitialized,
}

/// Replace-by-id for each document in turn: delete its id, then add it.
pub open spec fn upsert_ops(docs: Seq<Document>) -> Seq<WriteOp>
    decreases docs.len(),
{
    if docs.len() == 0 {
        Seq::<WriteOp>::empty()
    } else {
        upsert_ops(docs.drop_last()).push(WriteOp::DeleteId(docs.last().id)).push(
            WriteOp::Add(docs.last()),
        )
    }
}

/// A delete for each id in turn.
pub open spec fn delete_ops(ids: Seq<String>) -> Seq<WriteOp>
    decreases ids.len(),
{
    if ids.len() == 0 {
        Seq::<WriteOp>::empty()
    } else {
        delete_ops(ids.drop_last()).push(WriteOp::DeleteId(ids.last()))
    }
}

fn copy_document(doc: &Document) -> (r: Document)
    ensures
        r == *doc,
{
    Document { id: doc.id.clone(), text: doc.text.clone() }
}

/// Adds or replaces a document without committing.
pub fn add_document_no_commit(initialized: bool, doc: Document) -> (r: Result<
    Vec<WriteOp>,
    StoreError,
>)
    ensures
        match r {
            Ok(ops) => initialized && ops@ == upsert_ops(seq![doc]),
            Err(e) => !initialized && e == StoreError::NotInitialized,
        },
{
    if !initialized {
        return Err(StoreError::NotInitialized);
    }
    let mut ops: Vec<WriteOp> = Vec::new();
    ops.push(WriteOp::DeleteId(doc.id.clone()));
    ops.push(WriteOp::Add(doc));
    proof {
        assert(seq![doc].drop_last() =~= Seq::<Document>::empty());
        assert(upsert_ops(Seq::<Document>::empty()) == Seq::<WriteOp>::empty());
        assert(seq![doc].last() == doc);
        assert(ops@ =~= upsert_ops(seq![doc]));
    }
    Ok(ops)
}

/// Adds or replaces a document and commits.
pub fn add_document(initialized: bool, doc: Document) -> (r: Result<Vec<WriteOp>, StoreError>)
    ensures
        match r {
            Ok(ops) => initialized && ops@ == upsert_ops(seq![doc]).push(WriteOp::Commit),
            Err(e) => !initialized && e == StoreError::NotInitialized,
        },
{
    match add_document_no_commit(initialized, doc) {
        Ok(mut ops) => {
            ops.push(WriteOp::Commit);
            Ok(ops)
        },
        Err(e) => Err(e),
    }
}

/// Replaces a document: the same writes as `add_document`.
pub fn update_document(initialized: bool, doc: Document) -> (r: Result<Vec<WriteOp>, StoreError>)
    ensures
        match r {
            Ok(ops) => initialized && ops@ == upsert_ops(seq![doc]).push(WriteOp::Commit),
            Err(e) => !initialized && e == StoreError::NotInitialized,
        },
{
    add_document(initialized, doc)
}

/// Deletes the document with the given id without committing.
pub fn delete_document_no_commit(initialized: bool, id: String) -> (r: Result<
    Vec<WriteOp>,
    StoreError,
>)
    ensures
        match r {
            Ok(ops) => initialized && ops@ == delete_ops(seq![id]),
            Err(e) => !initialized && e == StoreError::NotInitialized,
        },
{
    if !initialized {
        return Err(StoreError::NotInitialized);
    }
    let mut ops: Vec<WriteOp> = Vec::new();
    ops.push(WriteOp::DeleteId(id));
    proof {
        assert(seq![id].drop_last() =~= Seq::<String>::empty());
        assert(delete_ops(Seq::<String>::empty()) == Seq::<WriteOp>::empty());
        assert(seq![id].last() == id);
        assert(ops@ =~= delete_ops(seq![id]));
    }
    Ok(ops)
}

/// Deletes the document with the given id and commits.
pub fn delete_document(initialized: bool, id: String) -> (r: Result<Vec<WriteOp>, StoreError>)
    ensures
        match r {
            Ok(ops) => initialized && ops@ == delete_ops(seq![id]).push(WriteOp::Commit),
            Err(e) => !initialized && e == StoreError::NotInitialized,
        },
{
    match delete_document_no_commit(initialized, id) {
        Ok(mut ops) => {
            ops.push(WriteOp::Commit);
            Ok(ops)
        },
        Err(e) => Err(e),
    }
}

/// Adds or replaces each document in order, then commits once.
pub fn add_documents_batch(initialized: bool, docs: Vec<Document>) -> (r: Result<
    Vec<WriteOp>,
    StoreError,
>)
    ensures
        match r {
            Ok(ops) => initialized && ops@ == upsert_ops(docs@).push(WriteOp::Commit),
            Err(e) => !initialized && e == StoreError::NotInitialized,
        },
{
    if !initialized {
        return Err(StoreError::NotInitialized);
    }
    let mut ops: Vec<WriteOp> = Vec::new();
    let mut i: usize = 0;
    while i < docs.len()
        invariant
            i <= docs@.len(),
            ops@ == upsert_ops(docs@.take(i as int)),
        decreases docs@.len() - i,
    {
        let d = copy_document(&docs[i]);
        ops.push(WriteOp::DeleteId(docs[i].id.clone()));
        ops.push(WriteOp::Add(d));
        proof {
            assert(docs@.take(i + 1).drop_last() =~= docs@.take(i as int));
        }
        i += 1;
    }
    assert(docs@.take(docs@.len() as int) =~= docs@);
    ops.push(WriteOp::Commit);
    Ok(ops)
}

/// Deletes the document of each id in order, then commits once.
pub fn delete_documents_batch(initialized: bool, ids: Vec<String>) -> (r: Result<
    Vec<WriteOp>,
    StoreError,
>)
    ensures
        match r {
            Ok(ops) => initialized && ops@ == delete_ops(ids@).push(WriteOp::Commit),
            Err(e) => !initialized && e == StoreError::NotInitialized,
        },
{
    if !initialized {
        return Err(StoreError::NotInitialized);
    }
    let mut ops: Vec<WriteOp> = Vec::new();
    let mut i: usize = 0;
    while i < ids.len()
        invariant
            i <= ids@.len(),
            ops@ == delete_ops(ids@.take(i as int)),
        decreases ids@.len() - i,
    {
        ops.push(WriteOp::DeleteId(ids[i].clone()));
        proof {
            assert(ids@.take(i + 1).drop_last() =~= ids@.take(i as int));
        }
        i += 1;
    }
    assert(ids@.take(ids@.len() as int) =~= ids@);
    ops.push(WriteOp::Commit);
    Ok(ops)
}

/// Commits the pending operations.
pub fn commit(initialized: bool) -> (r: Result<Vec<WriteOp>, StoreError>)
    ensures
        match r {
            Ok(ops) => initialized && ops@ == seq![WriteOp::Commit],
            Err(e) => !initialized && e == StoreError::NotInitialized,
        },
{
    if !initialized {
        return Err(StoreError::NotInitialized);
    }
    let mut ops: Vec<WriteOp> = Vec::new();
    ops.push(WriteOp::Commit);
    Ok(ops)
}

} // verus!
