use docsearch::ClickWrapper;
use docsearch::DiskStorage;
use docsearch::Index;
use docsearch::IndexError;
use docsearch::Initialise;
use docsearch::Item;
use docsearch::KeyValue;
use docsearch::Store;
use docsearch::WeightedInvertedIndex;
use docsearch::handle_click;
use docsearch::handle_search;
use docsearch::handle_write;
use docsearch::ClickResp;
use docsearch::SearchResp;
use docsearch::WriteResp;

fn collect_pairs(item: &Item) -> Vec<(Vec<String>, String)> {
    let mut it = item.iter();
    let mut out = Vec::new();
    while let Some(pair) = it.get() {
        out.push(pair);
    }
    out
}

#[test]
fn iterates_without_error() {
    let item = Item::mock();
    let results = collect_pairs(&item);
    assert!(results.len() == 2);
}

#[test]
fn reads_back_simple_write() {
    let mut index = WeightedInvertedIndex::new();

    let id = 0u128;
    let doc = Item::mock();

    let w_result = index.write(&id, &doc);
    assert!(matches!(w_result, Ok(_)));

    let query = "world".to_owned();
    let r_result = index.search(&query);
    assert!(matches!(r_result, Ok(_)));

    let entries = r_result.unwrap();
    assert_eq!(entries.len(), 1);
}

#[test]
fn flattening_yields_paths_to_the_containing_map() {
    let item = Item::mock();
    let pairs = collect_pairs(&item);
    assert_eq!(pairs.len(), 2);
    // Keys are visited in lexicographic order: bar before baz.
    assert_eq!(pairs[0].0, vec!["foo".to_owned()]);
    assert_eq!(pairs[0].1, "hello".to_owned());
    assert_eq!(pairs[1].0, vec!["foo".to_owned()]);
    assert_eq!(pairs[1].1, "world".to_owned());
}

#[test]
fn flattening_is_deterministic() {
    let mut root = Item::new();
    root.insert(
        "b".to_owned(),
        KeyValue::Array(vec![
            KeyValue::Value("two".to_owned()),
            KeyValue::Value("three".to_owned()),
        ]),
    );
    root.insert("a".to_owned(), KeyValue::Value("one".to_owned()));
    let first = collect_pairs(&root);
    let second = collect_pairs(&root);
    assert_eq!(first, second);
    assert_eq!(first.len(), 3);
    // "a" sorts before "b"; the list keeps its stored order.
    assert_eq!(first[0].1, "one".to_owned());
    assert_eq!(first[1].1, "two".to_owned());
    assert_eq!(first[2].1, "three".to_owned());
}

#[test]
fn inserting_an_equal_key_replaces_the_value() {
    let mut item = Item::new();
    item.insert("k".to_owned(), KeyValue::Value("old".to_owned()));
    item.insert("k".to_owned(), KeyValue::Value("new".to_owned()));
    let pairs = collect_pairs(&item);
    assert_eq!(pairs.len(), 1);
    assert_eq!(pairs[0].1, "new".to_owned());
}

#[test]
fn case_normalization_finds_world() {
    let mut index = WeightedInvertedIndex::new();
    let mut doc = Item::new();
    doc.insert("greeting".to_owned(), KeyValue::Value("World".to_owned()));
    index.write(&7u128, &doc).unwrap();
    let found = index.search(&"world".to_owned()).unwrap();
    assert_eq!(found, vec![7u128]);
}

#[test]
fn idempotent_write() {
    let mut once = WeightedInvertedIndex::new();
    let mut twice = WeightedInvertedIndex::new();
    let doc = Item::mock();
    once.write(&1u128, &doc).unwrap();
    twice.write(&1u128, &doc).unwrap();
    twice.write(&1u128, &doc).unwrap();
    for q in ["hello", "world", "hello world", ""] {
        assert_eq!(
            once.search(&q.to_owned()).unwrap(),
            twice.search(&q.to_owned()).unwrap()
        );
    }
}

#[test]
fn deduplication_of_matches() {
    let mut index = WeightedInvertedIndex::new();
    let mut doc = Item::new();
    // Two indexed terms, both matched by the one query term "alpha":
    // one exactly, one as a substring.
    doc.insert("text".to_owned(), KeyValue::Value("alpha alphabet".to_owned()));
    index.write(&9u128, &doc).unwrap();
    let found = index.search(&"alpha".to_owned()).unwrap();
    assert_eq!(found, vec![9u128]);
}

#[test]
fn typo_tolerant_match() {
    let mut index = WeightedInvertedIndex::new();
    let mut doc = Item::new();
    doc.insert("text".to_owned(), KeyValue::Value("abcdefgh".to_owned()));
    index.write(&4u128, &doc).unwrap();
    // One mismatched position out of eight: distance 1 < 8 / 4.
    let found = index.search(&"abcdefgx".to_owned()).unwrap();
    assert_eq!(found, vec![4u128]);
    // Distance 1 is not under 4 / 4 = 1, and "hellp" is no substring.
    let mut short = WeightedInvertedIndex::new();
    let mut doc2 = Item::new();
    doc2.insert("text".to_owned(), KeyValue::Value("hell".to_owned()));
    short.write(&5u128, &doc2).unwrap();
    assert_eq!(short.search(&"helx".to_owned()).unwrap(), Vec::<u128>::new());
}

#[test]
fn empty_cases_return_no_identifiers() {
    let fresh = WeightedInvertedIndex::new();
    assert_eq!(fresh.search(&"anything at all".to_owned()).unwrap(), Vec::<u128>::new());
    let mut index = WeightedInvertedIndex::new();
    index.write(&1u128, &Item::mock()).unwrap();
    assert_eq!(index.search(&"".to_owned()).unwrap(), Vec::<u128>::new());
    assert_eq!(index.search(&"   ".to_owned()).unwrap(), Vec::<u128>::new());
}

#[test]
fn serialization_round_trip() {
    let mut index = WeightedInvertedIndex::new();
    index.write(&1u128, &Item::mock()).unwrap();
    let mut other = Item::new();
    other.insert("t".to_owned(), KeyValue::Value("Unicode snowman \u{2603}".to_owned()));
    index.write(&2u128, &other).unwrap();

    let bytes = index.serialize().unwrap();
    let mut loaded = WeightedInvertedIndex::new();
    loaded.deserialize(bytes.as_slice()).unwrap();

    for q in ["hello", "world", "unicode", "snowman", "\u{2603}", "missing"] {
        assert_eq!(
            index.search(&q.to_owned()).unwrap(),
            loaded.search(&q.to_owned()).unwrap()
        );
    }
}

#[test]
fn empty_table_round_trip() {
    let index = WeightedInvertedIndex::new();
    let bytes = index.serialize().unwrap();
    assert_eq!(bytes.len(), 8);
    let mut loaded = WeightedInvertedIndex::new();
    loaded.deserialize(bytes.as_slice()).unwrap();
    assert_eq!(loaded.search(&"anything".to_owned()).unwrap(), Vec::<u128>::new());
}

#[test]
fn malformed_stream_fails_atomically() {
    let mut index = WeightedInvertedIndex::new();
    index.write(&3u128, &Item::mock()).unwrap();

    // Too short for a record count.
    assert_eq!(index.deserialize(&[1, 2, 3]), Err(IndexError::Malformed));
    // Claims one record but holds none.
    let truncated = [1u8, 0, 0, 0, 0, 0, 0, 0];
    assert_eq!(index.deserialize(&truncated), Err(IndexError::Malformed));
    // Trailing bytes after a valid empty table.
    let trailing = [0u8, 0, 0, 0, 0, 0, 0, 0, 9];
    assert_eq!(index.deserialize(&trailing), Err(IndexError::Malformed));

    // The failed loads left the index untouched.
    assert_eq!(index.search(&"world".to_owned()).unwrap(), vec![3u128]);
}

#[test]
fn later_record_wins_on_deserialize() {
    let mut a = WeightedInvertedIndex::new();
    let mut doc = Item::new();
    doc.insert("f".to_owned(), KeyValue::Value("term".to_owned()));
    a.write(&1u128, &doc).unwrap();
    let mut b = WeightedInvertedIndex::new();
    b.write(&2u128, &doc).unwrap();

    // Feed a's records, then b's: b's posting list replaces a's.
    let mut merged = WeightedInvertedIndex::new();
    merged.deserialize(a.serialize().unwrap().as_slice()).unwrap();
    merged.deserialize(b.serialize().unwrap().as_slice()).unwrap();
    assert_eq!(merged.search(&"term".to_owned()).unwrap(), vec![2u128]);
}

#[test]
fn store_set_and_get() {
    let mut store = Store::new();
    let id = store.set(Some(&11u128), Item::mock());
    assert_eq!(id, 11u128);
    assert!(store.get(&11u128).is_some());
    assert!(store.get(&12u128).is_none());

    let generated = store.set(None, Item::mock());
    assert!(store.get(&generated).is_some());

    let listed = store.list(&[11u128, generated, 99u128]);
    assert_eq!(listed.len(), 2);
}

#[test]
fn click_wrapper_forwards_and_records() {
    let mut index = docsearch::index::default();
    let doc = Item::mock();
    index.write(&21u128, &doc).unwrap();
    assert_eq!(index.search(&"hello".to_owned()).unwrap(), vec![21u128]);
    assert!(index.click(&21u128, &"hello".to_owned()).is_ok());
    // The click changed nothing about retrieval.
    assert_eq!(index.search(&"hello".to_owned()).unwrap(), vec![21u128]);
}

#[test]
fn handlers_cover_write_search_click() {
    let mut index = docsearch::index::default();
    let mut store = Store::new();

    let doc = Item::mock();
    let w = handle_write(&mut index, &mut store, &Some(31u128), &doc);
    assert!(matches!(w, WriteResp::Success(())));

    let s = handle_search(&index, &store, &"world".to_owned());
    match s {
        SearchResp::Success(items) => assert_eq!(items.len(), 1),
        SearchResp::Error(_) => panic!("search failed"),
    }

    let c = handle_click(&mut index, &31u128, &"world".to_owned());
    assert!(matches!(c, ClickResp::Success(())));
}

#[test]
fn wrappers_compose() {
    // A decorator may wrap another decorator over the shared index
    // capability.
    let mut nested: ClickWrapper<ClickWrapper<WeightedInvertedIndex>> = Initialise::new();
    nested.write(&51u128, &Item::mock()).unwrap();
    assert_eq!(nested.search(&"hello".to_owned()).unwrap(), vec![51u128]);
    assert!(nested.click(&51u128, &"hello".to_owned()).is_ok());
}

#[test]
fn list_elements_share_their_parent_map_path() {
    let mut root = Item::new();
    let mut sub = Item::new();
    sub.insert("x".to_owned(), KeyValue::Value("v1".to_owned()));
    root.insert(
        "k".to_owned(),
        KeyValue::Array(vec![KeyValue::Dict(sub), KeyValue::Value("v2".to_owned())]),
    );
    let pairs = collect_pairs(&root);
    assert_eq!(pairs.len(), 2);
    // Array traversal does not extend the path: both leaves sit at the
    // root map's (empty) path.
    assert_eq!(pairs[0], (Vec::<String>::new(), "v1".to_owned()));
    assert_eq!(pairs[1], (Vec::<String>::new(), "v2".to_owned()));
}
