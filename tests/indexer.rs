use storage_index::{
    validate_listing, HashTableIndexer, IdxError, IndexingError, IndexingResult, Lookup,
    ObjectName, ObjectNameBuf,
};

const FILENAMES: [&str; 4] = ["foo", "bar", "baz", "blub"];
const CONTENT: [i32; 4] = [1, 2, 3, 4];

/// Lists the four objects and runs `keymap` on each, as the indexing tasks
/// would, handing back the outcomes in arrival order.
fn outcomes<K>(
    content: &[i32; 4],
    keymap: impl Fn(&ObjectNameBuf, i32) -> IndexingResult<K>,
) -> Vec<(IndexingResult<K>, ObjectNameBuf)> {
    let listing: Vec<String> = FILENAMES.iter().map(|s| s.to_string()).collect();
    let names = validate_listing(&listing).unwrap();
    names
        .into_iter()
        .zip(content.iter())
        .map(|(n, c)| (keymap(&n, *c), n))
        .collect()
}

fn index_by_name(name_buf: &ObjectNameBuf, _: i32) -> IndexingResult<String> {
    Ok(name_buf.name().as_str().to_string())
}

fn index_by_name_length(name_buf: &ObjectNameBuf, _: i32) -> IndexingResult<usize> {
    Ok(name_buf.name().as_str().len())
}

fn index_by_number(_: &ObjectNameBuf, number: i32) -> IndexingResult<i32> {
    Ok(number)
}

fn multi_index_by_letter(name_buf: &ObjectNameBuf, _: i32) -> IndexingResult<Vec<char>> {
    let s = name_buf.name().as_str().to_string();
    let mut rv = Vec::with_capacity(s.len());
    for c in s.chars() {
        rv.push(c);
    }
    Ok(rv)
}

#[test]
fn test_indexer() {
    // create index
    let name_index = HashTableIndexer::from_results(outcomes(&CONTENT, index_by_name)).unwrap();
    let name_len_index =
        HashTableIndexer::from_results(outcomes(&CONTENT, index_by_name_length)).unwrap();
    let number_index = HashTableIndexer::from_results(outcomes(&CONTENT, index_by_number)).unwrap();

    // test index
    for filename in FILENAMES.iter() {
        let lkup = name_index.get(&filename.to_string()).unwrap();
        assert_eq!(vec![ObjectName::new(filename).unwrap()], lkup);
    }

    let lkup = name_len_index.get(&3).unwrap();
    let expected = vec![
        ObjectName::new("foo").unwrap(),
        ObjectName::new("bar").unwrap(),
        ObjectName::new("baz").unwrap(),
    ];

    assert!(lkup.contains(&expected[0]));
    assert!(lkup.contains(&expected[1]));
    assert!(lkup.contains(&expected[2]));

    for (content, filename) in CONTENT.iter().zip(FILENAMES.iter()) {
        let lkup = number_index.get(content).unwrap();
        assert_eq!(vec![ObjectName::new(filename).unwrap()], lkup);
    }

    // test key access
    let lengths: Vec<_> = name_len_index.keys();
    assert!(lengths.contains(&&3));
    assert!(lengths.contains(&&4));
    assert_eq!(2, lengths.len());
}

#[test]
fn test_multi_indexer() {
    let letter_index =
        HashTableIndexer::from_multi_results(outcomes(&CONTENT, multi_index_by_letter)).unwrap();

    let lkup = letter_index.get(&'a').unwrap();
    assert_eq!(2, lkup.len());
    assert!(lkup.contains(&ObjectName::new("bar").unwrap()));
    assert!(lkup.contains(&ObjectName::new("baz").unwrap()));
}

#[test]
fn name_length_groups() {
    let index = HashTableIndexer::from_results(outcomes(&CONTENT, index_by_name_length)).unwrap();
    let three: Vec<&str> = index.get(&3).unwrap().iter().map(|n| n.as_str()).collect();
    assert_eq!(vec!["foo", "bar", "baz"], three);
    let four: Vec<&str> = index.get(&4).unwrap().iter().map(|n| n.as_str()).collect();
    assert_eq!(vec!["blub"], four);
    let mut keys: Vec<usize> = index.keys().into_iter().copied().collect();
    keys.sort();
    assert_eq!(vec![3, 4], keys);
}

#[test]
fn distinct_keys_give_one_entry_each() {
    let index = HashTableIndexer::from_results(outcomes(&CONTENT, index_by_number)).unwrap();
    let keys = index.keys();
    assert_eq!(4, keys.len());
    let mut total = 0;
    for k in keys {
        total += index.get(k).unwrap().len();
    }
    assert_eq!(4, total);
}

#[test]
fn unknown_key_gives_no_names() {
    let index = HashTableIndexer::from_results(outcomes(&CONTENT, index_by_number)).unwrap();
    assert!(index.get(&99).unwrap().is_empty());
}

#[test]
fn empty_collection_gives_empty_index() {
    let results: Vec<(IndexingResult<u64>, ObjectNameBuf)> = Vec::new();
    let index = HashTableIndexer::from_results(results).unwrap();
    assert!(index.keys().is_empty());
    assert!(index.get(&1).unwrap().is_empty());
}

#[test]
fn multi_index_fan_out() {
    let index =
        HashTableIndexer::from_multi_results(outcomes(&CONTENT, multi_index_by_letter)).unwrap();
    // "blub" has the keys b, l, u, b: its name is filed under b twice.
    let b: Vec<&str> = index.get(&'b').unwrap().iter().map(|n| n.as_str()).collect();
    assert_eq!(vec!["bar", "baz", "blub", "blub"], b);
    // "foo" has the distinct keys f and o: it stands in exactly those buckets.
    let mut holding = Vec::new();
    for k in index.keys() {
        if index.get(k).unwrap().iter().any(|n| n.as_str() == "foo") {
            holding.push(*k);
        }
    }
    holding.sort();
    assert_eq!(vec!['f', 'o'], holding);
    assert_eq!(vec!["foo", "foo"], index.get(&'o').unwrap().iter().map(|n| n.as_str()).collect::<Vec<_>>());
}

#[test]
fn multi_index_without_keys() {
    let index = HashTableIndexer::from_multi_results(outcomes(&CONTENT, |_, _| {
        Ok(Vec::<u8>::new())
    }))
    .unwrap();
    assert!(index.keys().is_empty());
}

#[test]
fn keymap_failure_aborts_the_build() {
    let results = outcomes(&CONTENT, |n, c| {
        if c == 3 {
            Err(IndexingError::new(format!("cannot read '{}'", n.name().as_str())))
        } else {
            Ok(c)
        }
    });
    match HashTableIndexer::from_results(results) {
        Err(IdxError::IndexingError(e)) => assert_eq!("cannot read 'baz'", e.to_string()),
        _ => panic!("expected an indexing error"),
    }
}

#[test]
fn first_keymap_failure_is_reported() {
    let results = outcomes(&CONTENT, |n, c| {
        if c >= 2 {
            Err(IndexingError::new(n.name().as_str().to_string()))
        } else {
            Ok(vec![c])
        }
    });
    match HashTableIndexer::from_multi_results(results) {
        Err(IdxError::IndexingError(e)) => assert_eq!("bar", e.to_string()),
        _ => panic!("expected an indexing error"),
    }
}

#[test]
fn listing_with_an_invalid_name_is_refused() {
    let listing = vec!["foo".to_string(), "sub/bar".to_string()];
    assert!(matches!(validate_listing(&listing), Err(IdxError::StorageError(_))));
    let listing = vec!["foo".to_string(), "bar".to_string()];
    let names = validate_listing(&listing).unwrap();
    assert_eq!("foo", names[0].name().as_str());
    assert_eq!("bar", names[1].name().as_str());
}
