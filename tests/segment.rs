use kvs::segment::{Error, IndexEntry, LogFileBuilder, Segment};

/// The line of `lines`, laid end to end as a file, that starts at `offset`.
fn line_at(lines: &[String], offset: u64) -> Option<String> {
    let mut pos: u64 = 0;
    for line in lines {
        if pos == offset {
            return Some(line.clone());
        }
        pos += line.len() as u64;
    }
    None
}

fn read(seg: &Segment, lines: &[String], key: &str) -> Result<Option<String>, Error> {
    let line = match seg.entry(key) {
        Some(IndexEntry::Exist(offset)) => line_at(lines, offset),
        _ => None,
    };
    seg.get(key, line)
}

fn empty_segment() -> Segment {
    Segment::new("dir/data_0".to_owned(), 0, &Vec::new()).unwrap()
}

#[test]
fn ptr_log_file_crud() {
    let mut file: Vec<String> = Vec::new();
    let mut test_log_file = empty_segment();

    let kv1 = ("key1".to_owned(), "value1".to_owned());
    let kv2 = ("key2".to_owned(), "value2".to_owned());
    let kv3 = ("key3".to_owned(), "value3".to_owned());
    file.push(test_log_file.set(kv1.0.clone(), kv1.1.clone()).unwrap());
    file.push(test_log_file.set(kv2.0.clone(), kv2.1.clone()).unwrap());
    file.push(test_log_file.set(kv3.0.clone(), kv3.1.clone()).unwrap());

    let res1 = read(&test_log_file, &file, &kv1.0);
    let res2 = read(&test_log_file, &file, &kv2.0);
    let res3 = read(&test_log_file, &file, &kv3.0);
    assert!(res1.is_ok());
    assert!(res2.is_ok());
    assert!(res3.is_ok());
    let res1 = res1.unwrap();
    let res2 = res2.unwrap();
    let res3 = res3.unwrap();
    assert!(res1.is_some());
    assert!(res2.is_some());
    assert!(res3.is_some());
    assert_eq!(res1.unwrap(), "value1");
    assert_eq!(res2.unwrap(), "value2");
    assert_eq!(res3.unwrap(), "value3");

    // rm
    let res3 = test_log_file.remove(kv3.0.clone());
    assert!(res3.is_ok());
    file.push(res3.unwrap());
    let res3 = read(&test_log_file, &file, &kv3.0);
    assert!(res3.is_ok());
    assert!(res3.unwrap().is_none());

    // reopen to check replay
    drop(test_log_file);
    let test_log_file = Segment::new("dir/data_0".to_owned(), 0, &file).unwrap();
    let res1 = read(&test_log_file, &file, &kv1.0);
    let res2 = read(&test_log_file, &file, &kv2.0);
    let res3 = read(&test_log_file, &file, &kv3.0);
    assert!(res1.is_ok());
    assert!(res2.is_ok());
    assert!(res3.is_ok());
    let res1 = res1.unwrap();
    let res2 = res2.unwrap();
    let res3 = res3.unwrap();
    assert!(res1.is_some());
    assert!(res2.is_some());
    assert!(res3.is_none());
    assert_eq!(res1.unwrap(), kv1.1);
    assert_eq!(res2.unwrap(), kv2.1);
}

#[test]
fn test_remove_file() {
    let mut seg = empty_segment();
    assert_eq!(seg.remove("a".to_owned()), Err(Error::RemoveNotExistKey));
    seg.set("a".to_owned(), "1".to_owned()).unwrap();
    let line = seg.remove("a".to_owned()).unwrap();
    assert_eq!(line, "{\"cmd\":\"rm\",\"key\":\"a\",\"value\":null}\n");
    assert_eq!(seg.remove("a".to_owned()), Err(Error::RemoveNotExistKey));
}

#[test]
fn remove_then_recover() {
    let mut file: Vec<String> = Vec::new();
    let mut seg = empty_segment();
    file.push(seg.set("a".to_owned(), "1".to_owned()).unwrap());
    file.push(seg.remove("a".to_owned()).unwrap());
    let reopened = Segment::new("dir/data_0".to_owned(), 0, &file).unwrap();
    assert_eq!(read(&reopened, &file, "a"), Ok(None));
    assert!(reopened.contains_key("a"));
    let first = file[0].len() as u64;
    assert_eq!(reopened.entry("a"), Some(IndexEntry::Removed(first)));
}

#[test]
fn set_line_and_offsets() {
    let mut seg = empty_segment();
    let l1 = seg.set("k".to_owned(), "v".to_owned()).unwrap();
    assert_eq!(l1, "{\"cmd\":\"set\",\"key\":\"k\",\"value\":\"v\"}\n");
    assert_eq!(seg.entry("k"), Some(IndexEntry::Exist(0)));
    let l2 = seg.set("é".to_owned(), "w".to_owned()).unwrap();
    assert_eq!(seg.entry("é"), Some(IndexEntry::Exist(l1.len() as u64)));
    assert_eq!(seg.len(), (l1.len() + l2.len()) as u64);
    assert_eq!(l2.len(), l2.chars().count() + 1);
    assert_eq!(seg.entry("x"), None);
    assert!(!seg.contains_key("x"));
    assert_eq!(seg.id(), 0);
    assert_eq!(seg.path(), "dir/data_0");
}

#[test]
fn latest_wins_in_segment() {
    let mut file: Vec<String> = Vec::new();
    let mut seg = empty_segment();
    file.push(seg.set("k".to_owned(), "1".to_owned()).unwrap());
    file.push(seg.set("other".to_owned(), "x".to_owned()).unwrap());
    file.push(seg.set("k".to_owned(), "2".to_owned()).unwrap());
    assert_eq!(read(&seg, &file, "k"), Ok(Some("2".to_owned())));
    file.push(seg.remove("k".to_owned()).unwrap());
    assert_eq!(read(&seg, &file, "k"), Ok(None));
    file.push(seg.set("k".to_owned(), "3".to_owned()).unwrap());
    assert_eq!(read(&seg, &file, "k"), Ok(Some("3".to_owned())));
    let reopened = Segment::new("dir/data_0".to_owned(), 0, &file).unwrap();
    assert_eq!(read(&reopened, &file, "k"), Ok(Some("3".to_owned())));
    assert_eq!(read(&reopened, &file, "other"), Ok(Some("x".to_owned())));
}

#[test]
fn replay_rejects_bad_lines() {
    let good = "{\"cmd\":\"set\",\"key\":\"k\",\"value\":\"v\"}\n".to_owned();
    let unknown = vec![good.clone(), "{\"cmd\":\"get\",\"key\":\"k\"}\n".to_owned()];
    assert_eq!(Segment::new("p".to_owned(), 0, &unknown).err(), Some(Error::UnknownCmd));
    let broken = vec![good.clone(), "{\"cmd\":\"set\",\n".to_owned()];
    assert_eq!(Segment::new("p".to_owned(), 0, &broken).err(), Some(Error::DecodeLog));
    let empty = vec![good.clone(), String::new()];
    assert_eq!(Segment::new("p".to_owned(), 0, &empty).err(), Some(Error::DecodeLog));
    let loose = vec!["  {\"key\":\"k\", \"cmd\":\"rm\"}  \n".to_owned()];
    let seg = Segment::new("p".to_owned(), 0, &loose).unwrap();
    assert_eq!(seg.entry("k"), Some(IndexEntry::Removed(0)));
}

#[test]
fn get_checks_the_line() {
    let mut seg = empty_segment();
    seg.set("k".to_owned(), "v".to_owned()).unwrap();
    assert_eq!(seg.get("k", None), Err(Error::Unexpected));
    assert_eq!(seg.get("k", Some("not json\n".to_owned())), Err(Error::DecodeLog));
    let other = "{\"cmd\":\"set\",\"key\":\"j\",\"value\":\"v\"}\n".to_owned();
    assert_eq!(seg.get("k", Some(other)), Err(Error::Unexpected));
    let no_value = "{\"cmd\":\"set\",\"key\":\"k\"}\n".to_owned();
    assert_eq!(seg.get("k", Some(no_value)), Err(Error::Unexpected));
    let removal = "{\"cmd\":\"rm\",\"key\":\"k\"}\n".to_owned();
    assert_eq!(seg.get("k", Some(removal)), Err(Error::Unexpected));
    assert_eq!(seg.get("missing", None), Ok(None));
}

#[test]
fn scan_offsets_follow_the_index() {
    let mut file: Vec<String> = Vec::new();
    let mut seg = empty_segment();
    for i in 0..3 {
        file.push(seg.set("a".to_owned(), i.to_string()).unwrap());
    }
    file.push(seg.set("b".to_owned(), "x".to_owned()).unwrap());
    file.push(seg.remove("b".to_owned()).unwrap());
    let mut offsets = seg.scan_offsets();
    offsets.sort();
    let start_of = |n: usize| file[..n].iter().map(|l| l.len() as u64).sum::<u64>();
    assert_eq!(offsets, vec![start_of(2), start_of(4)]);
}

#[test]
fn builder_makes_pointer_segments_only() {
    let lines = vec!["{\"cmd\":\"set\",\"key\":\"k\",\"value\":\"v\"}\n".to_owned()];
    let seg = LogFileBuilder::build("p".to_owned(), 3, &lines, "ptr").unwrap();
    assert_eq!(seg.id(), 3);
    assert!(seg.contains_key("k"));
    assert_eq!(LogFileBuilder::build("p".to_owned(), 3, &lines, "value").err(), Some(Error::UnknownMode));
}
