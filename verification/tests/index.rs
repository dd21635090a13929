use inverted_index::document::Document;
use inverted_index::error::IndexError;
use inverted_index::field::{FieldReader, SegmentData};
use inverted_index::index::{FieldData, Index};
use inverted_index::naming::SegmentName;
use inverted_index::query::{BooleanQuery, Occur, Query, TermQuery};
use inverted_index::writer::{FieldSegment, SegmentFiles};

fn written(done: Result<Vec<FieldSegment>, IndexError>) -> Vec<SegmentFiles> {
    done.unwrap()
        .into_iter()
        .map(|entry| {
            let files = entry.outcome.unwrap();
            assert_eq!(files.field, entry.field);
            files
        })
        .collect()
}

fn commit(disk: &mut Vec<FieldData>, segments: Vec<SegmentFiles>) {
    for files in segments {
        let entry = SegmentData {
            name: files.name.directory(),
            fst: files.fst,
            dox: files.dox,
            docs: files.docs,
        };
        match disk.iter_mut().find(|field| field.name == files.field) {
            Some(field) => field.segments.push(entry),
            None => disk.push(FieldData { name: files.field, segments: vec![entry] }),
        }
    }
}

fn leave_temp(disk: &mut Vec<FieldData>, segments: Vec<SegmentFiles>) {
    for files in segments {
        let entry = SegmentData {
            name: SegmentName::temp_directory(files.name.uuid),
            fst: files.fst,
            dox: files.dox,
            docs: files.docs,
        };
        match disk.iter_mut().find(|field| field.name == files.field) {
            Some(field) => field.segments.push(entry),
            None => disk.push(FieldData { name: files.field, segments: vec![entry] }),
        }
    }
}

fn title_batch() -> Vec<Document> {
    let mut first = Document::new();
    first.field("title").term("my", 0).term("title", 1);
    let mut second = Document::new();
    second.field("title").term("my", 0).term("second", 1).term("title", 2).term("titles", 2);
    vec![first, second]
}

fn third_batch() -> Vec<Document> {
    let mut third = Document::new();
    third.field("title").term("third", 1);
    third.field("id").term("id3", 0);
    vec![third]
}

fn names_of(reader: &FieldReader) -> Vec<SegmentName> {
    (0..reader.len()).map(|at| reader.name_at(at)).collect()
}

#[test]
fn create_index() {
    let mut disk: Vec<FieldData> = Vec::new();
    let mut index = Index::open("target/test", &disk).unwrap();
    assert_eq!(index.path(), "target/test");

    let mut documents = Vec::new();

    let mut document1 = Document::new();
    document1.field("id").term("id1", 0);
    document1.field("title").term("my", 0).term("title", 1);
    documents.push(document1);

    let mut document2 = Document::new();
    document2.field("id").term("id2", 1);
    document2.field("title").term("my", 0).term("second", 1).term("title", 2).term("titles", 2);
    documents.push(document2);

    let mut document3 = Document::new();
    document3.field("id").term("id3", 1);
    document3.field("title").term("my", 0).term("third", 1).term("title", 2).term("titles", 2);
    document3
        .field("content")
        .term("the", 0)
        .term("content", 1)
        .term("of", 2)
        .term("the", 3)
        .term("document", 4)
        .term("of", 5);
    documents.push(document3);

    let mut document4 = Document::new();
    document4.field("id").term("id4", 1);
    document4.field("title").term("my", 0).term("four", 1).term("title", 2).term("titles", 2);
    document4
        .field("content")
        .term("the", 0)
        .term("content", 1)
        .term("of", 2)
        .term("the", 3)
        .term("document", 4)
        .term("of", 5);
    documents.push(document4);

    let segments = index.put(&documents, 1_500_000_000, 0);
    assert!(segments.is_ok());
    commit(&mut disk, written(segments));
    assert!(index.reload(&disk).is_ok());
    assert_eq!(index.len(), 3);
    assert_eq!(index.record_count(), 4);
    let uuid = index.field(b"id").unwrap().name_at(0).uuid;
    for field in [&b"content"[..], b"id", b"title"] {
        assert_eq!(
            names_of(index.field(field).unwrap()),
            vec![SegmentName { uuid, offset: 0, count: 4 }]
        );
    }
    let content = index.field(b"content").unwrap().segment_at(0);
    assert_eq!(content.dictionary().get("the"), Some(3));
    assert_eq!(content.local_ids(3), vec![2u32, 3]);
}

#[test]
fn sequential_puts_extend_offsets() {
    let mut disk: Vec<FieldData> = Vec::new();
    let mut index = Index::open("index", &disk).unwrap();
    assert_eq!(index.record_count(), 0);

    let first = written(index.put(&title_batch(), 100, 0));
    let first_uuid = first[0].name.uuid;
    commit(&mut disk, first);
    index.reload(&disk).unwrap();
    assert_eq!(index.record_count(), 2);

    let second = written(index.put(&third_batch(), 200, 0));
    let second_uuid = second[0].name.uuid;
    assert_ne!(first_uuid, second_uuid);
    commit(&mut disk, second);
    index.reload(&disk).unwrap();

    let title = index.field(b"title").unwrap();
    assert_eq!(
        names_of(title),
        vec![
            SegmentName { uuid: first_uuid, offset: 0, count: 2 },
            SegmentName { uuid: second_uuid, offset: 2, count: 1 },
        ]
    );
    assert_eq!(title.record_count(), 3);
    let id = index.field(b"id").unwrap();
    assert_eq!(names_of(id), vec![SegmentName { uuid: second_uuid, offset: 2, count: 1 }]);
    assert_eq!(id.record_count(), 3);
    assert_eq!(index.record_count(), 3);
    assert!(index.field(b"body").is_none());
}

#[test]
fn empty_batch_is_a_no_op() {
    let mut disk: Vec<FieldData> = Vec::new();
    let mut index = Index::open("index", &disk).unwrap();
    commit(&mut disk, written(index.put(&title_batch(), 100, 0)));
    index.reload(&disk).unwrap();
    let segments = written(index.put(&Vec::new(), 200, 0));
    assert!(segments.is_empty());
    commit(&mut disk, segments);
    index.reload(&disk).unwrap();
    assert_eq!(index.record_count(), 2);
    assert_eq!(index.len(), 1);
    assert_eq!(index.field(b"title").unwrap().len(), 1);
}

#[test]
fn reopening_gives_the_same_index() {
    let mut disk: Vec<FieldData> = Vec::new();
    let mut index = Index::open("index", &disk).unwrap();
    commit(&mut disk, written(index.put(&title_batch(), 100, 0)));
    index.reload(&disk).unwrap();
    commit(&mut disk, written(index.put(&third_batch(), 200, 0)));
    index.reload(&disk).unwrap();

    let reopened = Index::open("index", &disk).unwrap();
    assert_eq!(reopened.record_count(), index.record_count());
    assert_eq!(reopened.len(), index.len());
    for at in 0..index.len() {
        let name = index.name_at(at);
        assert_eq!(reopened.name_at(at), name);
        assert_eq!(
            names_of(reopened.field(name).unwrap()),
            names_of(index.field(name).unwrap())
        );
    }
}

#[test]
fn reload_twice_changes_nothing() {
    let mut disk: Vec<FieldData> = Vec::new();
    let mut index = Index::open("index", &disk).unwrap();
    commit(&mut disk, written(index.put(&title_batch(), 100, 0)));
    index.reload(&disk).unwrap();
    let names = names_of(index.field(b"title").unwrap());
    index.reload(&disk).unwrap();
    assert_eq!(index.record_count(), 2);
    assert_eq!(names_of(index.field(b"title").unwrap()), names);
}

#[test]
fn crash_before_rename_is_not_seen() {
    let mut disk: Vec<FieldData> = Vec::new();
    let mut index = Index::open("index", &disk).unwrap();
    commit(&mut disk, written(index.put(&title_batch(), 100, 0)));
    index.reload(&disk).unwrap();

    leave_temp(&mut disk, written(index.put(&third_batch(), 200, 0)));
    let mut reopened = Index::open("index", &disk).unwrap();
    reopened.reload(&disk).unwrap();
    assert_eq!(reopened.record_count(), 2);
    assert_eq!(reopened.field(b"title").unwrap().len(), 1);
    assert_eq!(reopened.field(b"id").unwrap().len(), 0);
    assert_eq!(reopened.field(b"id").unwrap().record_count(), 0);

    let next = written(reopened.put(&third_batch(), 300, 0));
    assert!(next.iter().all(|files| files.name.offset == 2 && files.name.count == 1));
    commit(&mut disk, next);
    reopened.reload(&disk).unwrap();
    assert_eq!(reopened.record_count(), 3);
}

#[test]
fn pending_names_the_directories_to_read() {
    let mut disk: Vec<FieldData> = Vec::new();
    let mut index = Index::open("index", &disk).unwrap();
    let first = written(index.put(&title_batch(), 100, 0));
    let loaded = first[0].name;
    commit(&mut disk, first);
    index.reload(&disk).unwrap();

    let fresh = SegmentName { uuid: loaded.uuid + 1, offset: 2, count: 5 };
    let listing = vec![
        SegmentName::temp_directory(fresh.uuid),
        loaded.directory(),
        b"notes.txt".to_vec(),
        fresh.directory(),
        fresh.directory(),
    ];
    assert_eq!(index.pending(b"title", &listing), vec![3usize]);
    assert_eq!(index.pending(b"other", &listing), vec![1usize, 3]);
}

#[test]
fn a_segment_that_does_not_open_ends_the_reload() {
    let name = SegmentName { uuid: 7, offset: 0, count: 1 };
    let broken = SegmentData { name: name.directory(), fst: vec![0; 3], dox: vec![], docs: vec![] };
    let disk = vec![FieldData { name: b"title".to_vec(), segments: vec![broken] }];
    assert!(matches!(Index::open("index", &disk), Err(IndexError::Format)));
    let mut reader = FieldReader::open();
    assert_eq!(reader.load(&disk[0].segments[0]), Err(IndexError::Format));
    assert_eq!(reader.len(), 0);
    assert_eq!(reader.record_count(), 0);
}

#[test]
fn a_segment_is_loaded_once() {
    let mut disk: Vec<FieldData> = Vec::new();
    let index = Index::open("index", &disk).unwrap();
    commit(&mut disk, written(index.put(&title_batch(), 100, 0)));
    let mut reader = FieldReader::open();
    assert_eq!(reader.load(&disk[0].segments[0]), Ok(true));
    assert_eq!(reader.load(&disk[0].segments[0]), Ok(false));
    assert!(reader.has(reader.name_at(0).uuid));
    assert!(!reader.has(0));
    assert_eq!(reader.len(), 1);
    assert_eq!(reader.record_count(), 2);
}

#[test]
fn queries_are_built_and_select_nothing_yet() {
    let mut inner = BooleanQuery::new(0);
    inner.term("title", "my", Occur::Should).term("title", "second", Occur::MustNot);
    let mut query = BooleanQuery::new(1);
    query.term("id", "id1", Occur::Must).boolean(inner, Occur::Filter);
    assert_eq!(query.min_should_match, 1);
    assert_eq!(query.clauses.len(), 2);
    assert_eq!(query.clauses[0].occur, Occur::Must);
    match &query.clauses[0].query {
        Query::Term(TermQuery { field, term }) => {
            assert_eq!(field, "id");
            assert_eq!(term, "id1");
        }
        Query::Boolean(_) => panic!("a term was asked for"),
    }
    match &query.clauses[1].query {
        Query::Boolean(inner) => assert_eq!(inner.clauses.len(), 2),
        Query::Term(_) => panic!("a boolean query was asked for"),
    }
    let index = Index::open("index", &Vec::new()).unwrap();
    let query = Query::Boolean(query);
    assert!(query.execute(&index).is_empty());
    assert!(index.find(&query).is_ok());
}

#[test]
fn three_puts_count_their_documents() {
    let mut disk: Vec<FieldData> = Vec::new();
    let mut index = Index::open("index", &disk).unwrap();
    let mut second = 1u64;
    for size in [2usize, 1, 3] {
        let mut batch = Vec::new();
        for _ in 0..size {
            let mut document = Document::new();
            document.field("title").term("x", 0);
            batch.push(document);
        }
        let done = index.put(&batch, second, 0);
        assert!(done.is_ok());
        commit(&mut disk, written(done));
        index.reload(&disk).unwrap();
        second += 1;
    }
    let title = index.field(b"title").unwrap();
    let ends: Vec<(u64, u32)> =
        names_of(title).iter().map(|name| (name.offset, name.count)).collect();
    assert_eq!(ends, vec![(0, 2), (2, 1), (3, 3)]);
    assert_eq!(index.record_count(), 6);
}
