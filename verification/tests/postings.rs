use inverted_index::document::{Document, Terms};
use inverted_index::error::IndexError;
use inverted_index::layout::{fetch_word, positions_at};
use inverted_index::naming::SegmentName;
use inverted_index::order::{place, Place};
use inverted_index::postings::{FieldMaps, TermInfos, TermMap};
use inverted_index::sorted::SortedMap;
use inverted_index::writer::{SegmentFiles, SegmentWriter};

fn batch() -> Vec<Document> {
    let mut first = Document::new();
    first.field("title").term("my", 0).term("title", 1);
    first.field("id").term("id1", 0);
    let mut second = Document::new();
    second.field("title").term("my", 0).term("second", 1).term("title", 2).term("titles", 2);
    let mut third = Document::new();
    third.field("body");
    third.field("title").term("title", 7).term("title", 3).term("title", 7);
    vec![first, second, third]
}

#[test]
fn term_map_holds_every_term_with_its_documents_and_positions() {
    let (count, maps) = SegmentWriter::new_term_map(&batch());
    assert_eq!(count, 3);
    assert_eq!(maps.len(), 3);
    assert_eq!(maps.name_at(0).as_slice(), b"body");
    assert_eq!(maps.name_at(1).as_slice(), b"id");
    assert_eq!(maps.name_at(2).as_slice(), b"title");
    assert_eq!(maps.map_at(0).len(), 0);

    let id = maps.map_at(1);
    assert_eq!(id.len(), 1);
    assert_eq!(id.term_at(0).as_slice(), b"id1");
    assert_eq!(id.infos_at(0).doc_ids().iter().collect::<Vec<u32>>(), vec![0]);

    let title = maps.map_at(2);
    let terms: Vec<&[u8]> = (0..title.len()).map(|at| title.term_at(at).as_slice()).collect();
    assert_eq!(terms, vec![&b"my"[..], &b"second"[..], &b"title"[..], &b"titles"[..]]);
    let my = title.infos_at(0);
    assert_eq!(my.doc_ids().iter().collect::<Vec<u32>>(), vec![0, 1]);
    assert_eq!(my.len(), 2);
    assert_eq!(my.positions_at(0), &vec![0u32]);
    assert_eq!(my.positions_at(1), &vec![0u32]);
    let word = title.infos_at(2);
    assert_eq!(word.doc_ids().iter().collect::<Vec<u32>>(), vec![0, 1, 2]);
    assert_eq!(word.doc_ids().len(), word.len() as u64);
    assert_eq!(word.positions_at(0), &vec![1u32]);
    assert_eq!(word.positions_at(1), &vec![2u32]);
    assert_eq!(word.positions_at(2), &vec![7u32, 3, 7]);
    assert_eq!(title.infos_at(3).doc_ids().iter().collect::<Vec<u32>>(), vec![1]);
}

#[test]
fn a_term_in_several_documents_records_each_of_them() {
    let mut documents = Vec::new();
    for position in 0..5u32 {
        let mut document = Document::new();
        document.field("f").term("same", position);
        documents.push(document);
    }
    let (count, maps) = SegmentWriter::new_term_map(&documents);
    assert_eq!(count, 5);
    let infos = maps.map_at(0).infos_at(0);
    assert_eq!(infos.doc_ids().iter().collect::<Vec<u32>>(), vec![0, 1, 2, 3, 4]);
    for doc in 0..5usize {
        assert_eq!(infos.positions_at(doc), &vec![doc as u32]);
    }
}

#[test]
fn maps_are_filled_step_by_step() {
    let mut infos = TermInfos::new();
    infos.record(3, &vec![9, 8]);
    infos.record(5, &vec![1]);
    assert_eq!(infos.len(), 2);
    assert!(infos.doc_ids().contains(3) && infos.doc_ids().contains(5));
    assert_eq!(infos.doc_ids().len(), 2);

    let mut map = TermMap::new();
    map.record(b"b", 0, &vec![1]);
    map.record(b"a", 0, &vec![2]);
    map.record(b"b", 1, &vec![3]);
    assert_eq!(map.len(), 2);
    assert_eq!(map.term_at(0).as_slice(), b"a");
    assert_eq!(map.infos_at(1).positions_at(1), &vec![3u32]);

    let mut terms = Terms::new();
    terms.term("x", 4);
    let mut maps = FieldMaps::new();
    maps.add_field(b"later", &terms, 0);
    maps.add_field(b"first", &terms, 0);
    maps.add_field(b"later", &terms, 1);
    assert_eq!(maps.len(), 2);
    assert_eq!(maps.name_at(0).as_slice(), b"first");
    assert_eq!(maps.map_at(1).infos_at(0).len(), 2);
}

#[test]
fn terms_are_ordered_by_their_bytes() {
    let mut terms = Terms::new();
    terms.term("é", 0).term("z", 1).term("Z", 2).term("", 3).term("zz", 4);
    let order: Vec<&[u8]> = (0..terms.len()).map(|at| terms.term_at(at).as_slice()).collect();
    assert_eq!(
        order,
        vec![&b""[..], &b"Z"[..], &b"z"[..], &b"zz"[..], "é".as_bytes()]
    );
    assert_eq!(place(b"a", b"b"), Place::Before);
    assert_eq!(place(b"a", b"a"), Place::Same);
    assert_eq!(place(b"b", b"a"), Place::After);
    assert_eq!(place(b"a", b"ab"), Place::Before);
    assert_eq!(place(b"ab", b"a"), Place::After);
    assert_eq!(place(b"", b""), Place::Same);
    assert_eq!(place(&[0xff], &[0x00, 0xff]), Place::After);
}

#[test]
fn sorted_map_keeps_its_keys_ascending() {
    let mut map: SortedMap<u32> = SortedMap::new();
    for (key, value) in [(&b"m"[..], 1u32), (b"c", 2), (b"x", 3), (b"a", 4)] {
        let (at, found) = map.search(key);
        assert!(!found);
        map.insert_at(at, key.to_vec(), value);
    }
    assert_eq!(map.len(), 4);
    let keys: Vec<&[u8]> = (0..4).map(|at| map.key_at(at).as_slice()).collect();
    assert_eq!(keys, vec![&b"a"[..], &b"c"[..], &b"m"[..], &b"x"[..]]);
    assert_eq!(map.search(b"m"), (2, true));
    assert_eq!(map.search(b"d"), (2, false));
    assert_eq!(map.search(b"z"), (4, false));
    assert_eq!(*map.value_at(2), 1);
    *map.value_at_mut(2) += 10;
    assert_eq!(*map.value_at(2), 11);
}

#[test]
fn a_term_that_cannot_be_written_leaves_the_writer_as_it_was() {
    let name = SegmentName { uuid: 1, offset: 0, count: 1 };
    let mut infos = TermInfos::new();
    infos.record(0, &vec![5, 6]);
    let mut bitmap = Vec::new();
    infos.doc_ids().serialize_into(&mut bitmap).unwrap();

    let mut writer = SegmentWriter::new(b"f", name);
    assert_eq!(writer.write_term(b"m", &infos, None), Err(IndexError::Io));
    assert_eq!(writer.write_term(b"m", &infos, Some(bitmap.clone())), Ok(()));
    assert_eq!(writer.write_term(b"m", &infos, Some(bitmap.clone())), Err(IndexError::Format));
    assert_eq!(writer.write_term(b"a", &infos, Some(bitmap.clone())), Err(IndexError::Format));
    assert_eq!(writer.write_term(b"n", &infos, Some(bitmap.clone())), Ok(()));
    let files = writer.finish().unwrap();
    assert_eq!(files.name, name);
    assert_eq!(files.field, b"f".to_vec());
    assert_eq!(files.docs, [bitmap.clone(), bitmap].concat());
    let map = fst::Map::new(files.fst).unwrap();
    assert_eq!(map.len(), 2);
    assert_eq!(map.get("m"), Some(0));
    assert_eq!(map.get("n"), Some(1));
}

#[test]
fn a_segment_needs_all_its_files() {
    let name = SegmentName { uuid: 1, offset: 0, count: 1 };
    let some = |byte: u8| Some(vec![byte]);
    let files = SegmentFiles::assemble(
        b"f".to_vec(),
        name,
        some(1),
        some(2),
        vec![3],
        some(4),
        some(5),
        some(6),
    )
    .unwrap();
    assert_eq!(
        (files.fst, files.dox, files.docs, files.pox, files.posx, files.posi),
        (vec![1], vec![2], vec![3], vec![4], vec![5], vec![6])
    );
    let missing =
        SegmentFiles::assemble(b"f".to_vec(), name, some(1), None, vec![3], some(4), some(5), some(6));
    assert!(matches!(missing, Err(IndexError::Io)));
}

#[test]
fn positions_are_found_through_the_three_files() {
    let pox = [8u8, 0, 0, 0];
    let posx = [0u8, 0, 0, 0, 0, 0, 0, 0, 4, 0, 0, 0, 2, 0, 0, 0];
    let posi = [0u8, 0, 0, 0, 7, 0, 0, 0, 0, 1, 0, 0];
    assert_eq!(positions_at(&pox, &posx, &posi, 0, 0), Some(vec![7u32, 256]));
    assert_eq!(positions_at(&pox, &posx, &posi, 0, 1), None);
    assert_eq!(positions_at(&pox, &posx, &posi, 1, 0), None);
    assert_eq!(positions_at(&pox, &posx, &posi[..11], 0, 0), None);
    assert_eq!(positions_at(&pox, &posx, &posi, 0, usize::MAX), None);
    assert_eq!(fetch_word(&[1, 2, 3, 4, 5], 1), 0x05040302);
}
