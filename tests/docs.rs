use synless::docs::{path_extension, DocError, DocName};
use synless::engine::Engine;
use synless::forest::Forest;
use synless::location::{Location, LocationInner};
use synless::runtime::Runtime;

fn ext(p: &str) -> Option<String> {
    path_extension(&p.to_string())
}

#[test]
fn extensions_follow_the_last_dot_of_the_last_component() {
    assert_eq!(ext("doc.json"), Some("json".to_string()));
    assert_eq!(ext("dir.d/archive.tar.gz"), Some("gz".to_string()));
    assert_eq!(ext("file."), Some(String::new()));
    assert_eq!(ext("dir.d/README"), None);
    assert_eq!(ext(".bashrc"), None);
    assert_eq!(ext("dir/.hidden"), None);
    assert_eq!(ext(""), None);
}

fn runtime() -> (Runtime<u8>, synless::forest::Node) {
    let mut f = Forest::new();
    let scratch = f.new_branch("scratch".to_string());
    let doc = f.new_branch("list".to_string());
    let loc = Location::before_children(scratch, &f).unwrap();
    let mut rt = Runtime::new(Engine::new(f, loc));
    rt.register_extension("json".to_string(), "json".to_string());
    (rt, doc)
}

#[test]
fn open_doc_registers_and_shows_the_document() {
    let (mut rt, doc) = runtime();
    assert_eq!(rt.open_doc("data/x.json".to_string(), doc), Ok(()));
    assert_eq!(rt.visible, Some(0));
    assert!(matches!(&rt.docs[0].0, DocName::File(p) if p == "data/x.json"));
    assert!(matches!(rt.engine.loc.0, LocationInner::BelowNode(n) if n == doc.0));
}

#[test]
fn open_doc_errors() {
    let (mut rt, doc) = runtime();
    assert_eq!(rt.open_doc("notes".to_string(), doc), Err(DocError::NoExtension));
    assert_eq!(rt.open_doc("notes.txt".to_string(), doc), Err(DocError::UnknownExtension));
    doc.delete(&mut rt.engine.forest);
    assert_eq!(rt.open_doc("x.json".to_string(), doc), Err(DocError::InvalidTree));
    assert!(rt.docs.is_empty());
    assert_eq!(rt.visible, None);
}
