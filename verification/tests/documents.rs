use inverted_index::document::{Document, Terms};

#[test]
fn terms_keep_positions_in_the_order_given() {
    let mut terms = Terms::new();
    terms.term("the", 0).term("of", 2).term("the", 3).term("of", 5);
    assert_eq!(terms.len(), 2);
    assert_eq!(terms.term_at(0).as_slice(), "of".as_bytes());
    assert_eq!(terms.positions_at(0), &vec![2u32, 5]);
    assert_eq!(terms.term_at(1).as_slice(), "the".as_bytes());
    assert_eq!(terms.positions_at(1), &vec![0u32, 3]);
}

#[test]
fn document_fields_are_unique_and_ascending() {
    let mut document = Document::new();
    document.field("title").term("my", 0).term("title", 1);
    document.field("id").term("id1", 0);
    document.field("title").term("again", 2);
    assert_eq!(document.len(), 2);
    assert_eq!(document.name_at(0).as_slice(), "id".as_bytes());
    assert_eq!(document.name_at(1).as_slice(), "title".as_bytes());
    assert_eq!(document.terms_at(1).len(), 3);
    assert_eq!(document.terms_at(1).term_at(0).as_slice(), "again".as_bytes());
}
