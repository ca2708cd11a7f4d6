use keyword_core::documents::{
    add_document, add_document_no_commit, add_documents_batch, commit, delete_document,
    delete_document_no_commit, delete_documents_batch, update_document, Document, StoreError,
    WriteOp,
};

fn doc(id: &str, text: &str) -> Document {
    Document { id: id.to_string(), text: text.to_string() }
}

fn describe(ops: &[WriteOp]) -> Vec<String> {
    ops.iter()
        .map(|op| match op {
            WriteOp::DeleteId(id) => format!("delete {}", id),
            WriteOp::Add(d) => format!("add {} {}", d.id, d.text),
            WriteOp::Commit => "commit".to_string(),
        })
        .collect()
}

#[test]
fn add_replaces_by_id_then_commits() {
    let ops = add_document(true, doc("a", "hello")).unwrap();
    assert_eq!(describe(&ops), vec!["delete a", "add a hello", "commit"]);
    let ops = update_document(true, doc("a", "bye")).unwrap();
    assert_eq!(describe(&ops), vec!["delete a", "add a bye", "commit"]);
    let ops = add_document_no_commit(true, doc("b", "x")).unwrap();
    assert_eq!(describe(&ops), vec!["delete b", "add b x"]);
}

#[test]
fn deletes() {
    let ops = delete_document(true, "a".to_string()).unwrap();
    assert_eq!(describe(&ops), vec!["delete a", "commit"]);
    let ops = delete_document_no_commit(true, "a".to_string()).unwrap();
    assert_eq!(describe(&ops), vec!["delete a"]);
    let ops = delete_documents_batch(true, vec!["a".to_string(), "b".to_string()]).unwrap();
    assert_eq!(describe(&ops), vec!["delete a", "delete b", "commit"]);
    let ops = commit(true).unwrap();
    assert_eq!(describe(&ops), vec!["commit"]);
}

#[test]
fn batch_adds_commit_once() {
    let ops = add_documents_batch(true, vec![doc("a", "1"), doc("b", "2")]).unwrap();
    assert_eq!(describe(&ops), vec!["delete a", "add a 1", "delete b", "add b 2", "commit"]);
    let ops = add_documents_batch(true, Vec::new()).unwrap();
    assert_eq!(describe(&ops), vec!["commit"]);
}

#[test]
fn writes_need_an_open_index() {
    assert_eq!(add_document(false, doc("a", "x")).err(), Some(StoreError::NotInitialized));
    assert_eq!(delete_document(false, "a".to_string()).err(), Some(StoreError::NotInitialized));
    assert_eq!(add_documents_batch(false, vec![]).err(), Some(StoreError::NotInitialized));
    assert_eq!(delete_documents_batch(false, vec![]).err(), Some(StoreError::NotInitialized));
    assert_eq!(commit(false).err(), Some(StoreError::NotInitialized));
    assert_eq!(update_document(false, doc("a", "x")).err(), Some(StoreError::NotInitialized));
    assert_eq!(add_document_no_commit(false, doc("a", "x")).err(), Some(StoreError::NotInitialized));
    assert_eq!(delete_document_no_commit(false, "a".to_string()).err(), Some(StoreError::NotInitialized));
}
