use inverted_index::document::Document;
use inverted_index::error::IndexError;
use inverted_index::naming::SegmentName;
use inverted_index::reader::{PositionReader, SegmentReader};
use inverted_index::writer::{FieldSegment, SegmentFile, SegmentFiles, SegmentWriter};

fn written(done: Result<Vec<FieldSegment>, IndexError>) -> Vec<SegmentFiles> {
    done.unwrap()
        .into_iter()
        .map(|entry| {
            let files = entry.outcome.unwrap();
            assert_eq!(files.field, entry.field);
            files
        })
        .collect()
}

fn title_batch() -> Vec<Document> {
    let mut first = Document::new();
    first.field("title").term("my", 0).term("title", 1);
    let mut second = Document::new();
    second.field("title").term("my", 0).term("second", 1).term("title", 2).term("titles", 2);
    vec![first, second]
}

fn open_reader(files: &SegmentFiles) -> SegmentReader {
    SegmentReader::open(
        files.fst.clone(),
        files.dox.as_slice(),
        files.docs.as_slice(),
        files.name.offset,
        files.name.count,
    )
    .unwrap()
}

#[test]
fn single_document_single_field() {
    let mut document = Document::new();
    document.field("id").term("id1", 0);
    let segments = written(SegmentWriter::index(0, &vec![document], 1_497_624_119, 1234));
    assert_eq!(segments.len(), 1);
    let files = &segments[0];
    assert_eq!(files.field.as_slice(), "id".as_bytes());
    assert_eq!(files.name.offset, 0);
    assert_eq!(files.name.count, 1);
    let reader = open_reader(files);
    assert_eq!(reader.term_count(), 1);
    assert_eq!(reader.dictionary().get("id1"), Some(0));
    assert_eq!(reader.dictionary().len(), 1);
    assert_eq!(reader.local_ids(0), vec![0u32]);
    assert!(reader.holds(0, 0));
    assert!(!reader.holds(0, 1));
    assert!(!reader.holds(1, 0));
}

#[test]
fn overlapping_terms_two_documents() {
    let segments = written(SegmentWriter::index(0, &title_batch(), 1_497_624_119, 1234));
    assert_eq!(segments.len(), 1);
    let files = &segments[0];
    assert_eq!(files.field.as_slice(), "title".as_bytes());
    assert_eq!((files.name.offset, files.name.count), (0, 2));
    let reader = open_reader(files);
    let map = reader.dictionary();
    assert_eq!(map.len(), 4);
    assert_eq!(map.get("my"), Some(0));
    assert_eq!(map.get("second"), Some(1));
    assert_eq!(map.get("title"), Some(2));
    assert_eq!(map.get("titles"), Some(3));
    assert_eq!(map.get("third"), None);
    assert_eq!(reader.local_ids(0), vec![0u32, 1]);
    assert_eq!(reader.local_ids(1), vec![1u32]);
    assert_eq!(reader.local_ids(2), vec![0u32, 1]);
    assert_eq!(reader.local_ids(3), vec![1u32]);
    assert_eq!(reader.local_ids(4), Vec::<u32>::new());
    assert_eq!(reader.first_id(), 0);
    assert_eq!(reader.documents(), 2);

    let positions = PositionReader::open(
        files.pox.as_slice(),
        files.posx.as_slice(),
        files.posi.as_slice(),
    )
    .unwrap();
    assert_eq!(positions.positions(0, 0), Some(vec![0u32]));
    assert_eq!(positions.positions(0, 1), Some(vec![0u32]));
    assert_eq!(positions.positions(1, 0), Some(vec![1u32]));
    assert_eq!(positions.positions(2, 0), Some(vec![1u32]));
    assert_eq!(positions.positions(2, 1), Some(vec![2u32]));
    assert_eq!(positions.positions(3, 0), Some(vec![2u32]));
    assert_eq!(positions.positions(3, 1), None);
    assert_eq!(positions.positions(4, 0), None);
}

#[test]
fn dictionary_lists_terms_in_ascending_order_with_their_indices() {
    let segments = written(SegmentWriter::index(0, &title_batch(), 1, 2));
    let map = fst::Map::new(segments[0].fst.clone()).unwrap();
    let entries = map.stream().into_str_vec().unwrap();
    assert_eq!(
        entries,
        vec![
            ("my".to_string(), 0u64),
            ("second".to_string(), 1),
            ("title".to_string(), 2),
            ("titles".to_string(), 3),
        ]
    );
}

#[test]
fn index_files_have_the_documented_bytes() {
    let segments = written(SegmentWriter::index(0, &title_batch(), 1, 2));
    let files = &segments[0];
    let mut pox = Vec::new();
    std::io::Read::read_to_end(&mut snap::read::FrameDecoder::new(files.pox.as_slice()), &mut pox)
        .unwrap();
    assert_eq!(pox, vec![0, 0, 0, 0, 16, 0, 0, 0, 24, 0, 0, 0, 40, 0, 0, 0]);
    let mut posx = Vec::new();
    std::io::Read::read_to_end(&mut snap::read::FrameDecoder::new(files.posx.as_slice()), &mut posx)
        .unwrap();
    assert_eq!(
        posx,
        vec![
            0, 0, 0, 0, 1, 0, 0, 0, 4, 0, 0, 0, 1, 0, 0, 0, 8, 0, 0, 0, 1, 0, 0, 0, 12, 0, 0, 0, 1,
            0, 0, 0, 16, 0, 0, 0, 1, 0, 0, 0, 20, 0, 0, 0, 1, 0, 0, 0,
        ]
    );
    let mut posi = Vec::new();
    std::io::Read::read_to_end(&mut snap::read::FrameDecoder::new(files.posi.as_slice()), &mut posi)
        .unwrap();
    assert_eq!(
        posi,
        vec![0, 0, 0, 0, 0, 0, 0, 0, 1, 0, 0, 0, 1, 0, 0, 0, 2, 0, 0, 0, 2, 0, 0, 0]
    );
    let mut dox = Vec::new();
    std::io::Read::read_to_end(&mut snap::read::FrameDecoder::new(files.dox.as_slice()), &mut dox)
        .unwrap();
    assert_eq!(dox.len(), 16);
    let mut expected_docs = Vec::new();
    for ids in [vec![0u32, 1], vec![1], vec![0, 1], vec![1]] {
        let bitmap: roaring::RoaringBitmap = ids.into_iter().collect();
        let before = expected_docs.len();
        bitmap.serialize_into(&mut expected_docs).unwrap();
        let length = (expected_docs.len() - before) as u32;
        let at = 4 * (length_index(before, &expected_docs, &dox));
        assert_eq!(&dox[at..at + 4], &length.to_le_bytes());
    }
    assert_eq!(files.docs, expected_docs);
}

fn length_index(before: usize, _docs: &[u8], dox: &[u8]) -> usize {
    let mut start = 0usize;
    let mut index = 0usize;
    while start < before {
        let word = [dox[4 * index], dox[4 * index + 1], dox[4 * index + 2], dox[4 * index + 3]];
        start += u32::from_le_bytes(word) as usize;
        index += 1;
    }
    index
}

#[test]
fn segments_come_in_ascending_order_of_the_fields() {
    let mut document = Document::new();
    document.field("title").term("third", 1);
    document.field("id").term("id3", 0);
    let segments = written(SegmentWriter::index(2, &vec![document], 7, 8));
    assert_eq!(segments.len(), 2);
    assert_eq!(segments[0].field.as_slice(), "id".as_bytes());
    assert_eq!(segments[1].field.as_slice(), "title".as_bytes());
    for files in segments.iter() {
        assert_eq!(files.name.offset, 2);
        assert_eq!(files.name.count, 1);
        assert_eq!(files.name.uuid, segments[0].name.uuid);
    }
}

#[test]
fn empty_batch_gives_no_segment() {
    let segments = written(SegmentWriter::index(5, &Vec::new(), 7, 8));
    assert!(segments.is_empty());
}

#[test]
fn field_without_terms_gives_an_empty_segment() {
    let mut document = Document::new();
    document.field("empty");
    let segments = written(SegmentWriter::index(0, &vec![document], 7, 8));
    assert_eq!(segments.len(), 1);
    let reader = open_reader(&segments[0]);
    assert_eq!(reader.term_count(), 0);
    assert!(segments[0].docs.is_empty());
}

#[test]
fn offset_beyond_the_id_range_is_refused() {
    let mut document = Document::new();
    document.field("id").term("id1", 0);
    let done = SegmentWriter::index(u64::MAX, &vec![document], 7, 8);
    assert!(matches!(done, Err(IndexError::TooLarge)));
}

#[test]
fn segment_identifier_is_the_version_one_uuid_of_the_time() {
    let uuid = SegmentWriter::segment_uuid(1_497_624_119, 1234);
    let name = SegmentName { uuid, offset: 0, count: 1 };
    assert_eq!(
        String::from_utf8(name.directory()).unwrap(),
        "f3b4958c-52a1-11e7-802a-010203040506.0.1"
    );
}

#[test]
fn damaged_files_are_format_errors() {
    let segments = written(SegmentWriter::index(0, &title_batch(), 1, 2));
    let files = &segments[0];
    let no_dictionary = SegmentReader::open(vec![1, 2, 3], &files.dox, &files.docs, 0, 2);
    assert!(matches!(no_dictionary, Err(IndexError::Format)));
    let no_lengths = SegmentReader::open(files.fst.clone(), &[9, 9, 9, 9], &files.docs, 0, 2);
    assert!(matches!(no_lengths, Err(IndexError::Format)));
    let short_docs = SegmentReader::open(files.fst.clone(), &files.dox, &files.docs[..10], 0, 2);
    assert!(matches!(short_docs, Err(IndexError::Format)));
    let mut garbled = files.docs.clone();
    garbled[0] = 0;
    let bad_bitmap = SegmentReader::open(files.fst.clone(), &files.dox, &garbled, 0, 2);
    assert!(matches!(bad_bitmap, Err(IndexError::Format)));
    let bad_positions = PositionReader::open(&[1, 2, 3], &files.posx, &files.posi);
    assert!(matches!(bad_positions, Err(IndexError::Format)));
}

#[test]
fn files_are_written_in_the_flush_order() {
    let order = SegmentFile::in_flush_order();
    let names: Vec<&str> = order.iter().map(|file| file.name()).collect();
    assert_eq!(names, vec!["fst", "posx", "posi", "pox", "docs", "dox"]);
    let segments = written(SegmentWriter::index(0, &title_batch(), 1, 2));
    let files = &segments[0];
    let contents: Vec<&Vec<u8>> = order.iter().map(|file| files.contents(*file)).collect();
    assert_eq!(
        contents,
        vec![&files.fst, &files.posx, &files.posi, &files.pox, &files.docs, &files.dox]
    );
}

#[test]
fn every_field_of_a_batch_has_its_own_outcome() {
    let mut document = Document::new();
    document.field("title").term("third", 1);
    document.field("id").term("id3", 0);
    let entries = SegmentWriter::index(2, &vec![document], 7, 8).unwrap();
    let fields: Vec<&[u8]> = entries.iter().map(|entry| entry.field.as_slice()).collect();
    assert_eq!(fields, vec![&b"id"[..], &b"title"[..]]);
    assert!(entries.iter().all(|entry| entry.outcome.is_ok()));
}

#[test]
fn a_term_map_is_encoded_as_one_segment() {
    let (_, maps) = SegmentWriter::new_term_map(&title_batch());
    let name = SegmentName { uuid: 9, offset: 4, count: 2 };
    let files = SegmentWriter::encode(b"title", name, maps.map_at(0)).unwrap();
    assert_eq!(files.field, b"title".to_vec());
    assert_eq!(files.name, name);
    let reader = open_reader(&files);
    assert_eq!(reader.term_count(), 4);
    assert_eq!(reader.first_id(), 4);
    assert_eq!(reader.local_ids(2), vec![0u32, 1]);
}
