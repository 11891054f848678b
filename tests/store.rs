use kvs::files::{Located, LogFiles, COMPACTION_THRESHOLD};
use kvs::layout::{plan_open, sort_file_ids, LayoutError};
use kvs::naming::{check_and_get_file_id, compact_path, file_name, parse_file_id, path_in};
use kvs::segment::{Error, IndexEntry, Segment};
use std::collections::HashMap;

/// Segment files kept in memory: path to lines.
type Disk = HashMap<String, Vec<String>>;

fn line_at(lines: &[String], offset: u64) -> Option<String> {
    let mut pos: u64 = 0;
    for line in lines {
        if pos == offset {
            return Some(line.clone());
        }
        pos += line.len() as u64;
    }
    None
}

fn seg_get(seg: &Segment, disk: &Disk, key: &str) -> Result<Option<String>, Error> {
    let lines = disk.get(seg.path().as_str()).cloned().unwrap_or_default();
    let line = match seg.entry(key) {
        Some(IndexEntry::Exist(offset)) => line_at(&lines, offset),
        _ => None,
    };
    seg.get(key, line)
}

fn store_get(files: &LogFiles, disk: &Disk, key: &str) -> Result<Option<String>, Error> {
    match files.locate(key) {
        None => Ok(None),
        Some(at) => seg_get(files.segment(at), disk, key),
    }
}

fn store_set(files: &mut LogFiles, disk: &mut Disk, key: &str, value: &str) {
    let path = files.mutable().path().clone();
    let line = files.set(key.to_owned(), value.to_owned()).unwrap();
    disk.entry(path).or_default().push(line);
}

fn open_segment(disk: &Disk, id: usize) -> Segment {
    let path = path_in("db", &file_name(id));
    let lines = disk.get(&path).cloned().unwrap_or_default();
    Segment::new(path, id, &lines).unwrap()
}

/// Rotates the mutable segment and compacts the one it leaves behind.
fn rotate_and_compact(files: &mut LogFiles, disk: &mut Disk) {
    let next = files.next_id();
    let path = files.next_mut_path();
    disk.insert(path.clone(), Vec::new());
    files.rotate(Segment::new(path, next, &Vec::new()).unwrap());

    let last = files.immutables().last().unwrap();
    let lines = disk.get(last.path().as_str()).unwrap().clone();
    let scanned: Vec<String> =
        last.scan_offsets().iter().map(|o| line_at(&lines, *o).unwrap()).collect();
    let target = last.path().clone();
    disk.insert(compact_path(&target), scanned);
    let compacted = disk.remove(&compact_path(&target)).unwrap();
    disk.insert(target.clone(), compacted.clone());
    let rebuilt = Segment::new(target, last.id(), &compacted).unwrap();
    files.replace_last_immutable(rebuilt);
}

#[test]
fn compact() {
    let mut disk: Disk = HashMap::new();
    let mut mut_log_file = open_segment(&disk, 1);
    let mut lines = Vec::new();
    for i in 0..500u32 {
        lines.push(mut_log_file.set("key1".to_string(), i.to_string()).unwrap());
    }
    for i in 0..500u32 {
        lines.push(mut_log_file.set("key2".to_string(), i.to_string()).unwrap());
    }
    disk.insert(mut_log_file.path().clone(), lines);
    let old_mut_file_size = mut_log_file.len();
    let immut_log_files = vec![open_segment(&disk, 0)];
    let mut files = LogFiles::new(mut_log_file, immut_log_files, 2, "db".to_owned());

    rotate_and_compact(&mut files, &mut disk);

    assert!(files.immutables()[0].path().contains("data_0"));
    assert!(files.immutables()[1].path().contains("data_1"));
    assert!(files.mutable().path().contains("data_2"));
    assert_eq!(files.mutable().len(), 0);
    let new_last = &files.immutables()[1];
    assert!(new_last.len() < old_mut_file_size);
    assert_eq!(seg_get(new_last, &disk, "key1").unwrap().unwrap(), 499.to_string());
    assert_eq!(seg_get(new_last, &disk, "key2").unwrap().unwrap(), 499.to_string());
    assert_eq!(store_get(&files, &disk, "key1"), Ok(Some("499".to_owned())));
}

#[test]
fn crud_through_the_store_and_reopen() {
    let mut disk: Disk = HashMap::new();
    let mut files = LogFiles::new(open_segment(&disk, 0), Vec::new(), 1, "db".to_owned());
    store_set(&mut files, &mut disk, "key1", "value1");
    store_set(&mut files, &mut disk, "key2", "value2");
    store_set(&mut files, &mut disk, "key3", "value3");
    assert_eq!(store_get(&files, &disk, "key1"), Ok(Some("value1".to_owned())));
    assert_eq!(store_get(&files, &disk, "key2"), Ok(Some("value2".to_owned())));
    assert_eq!(store_get(&files, &disk, "key3"), Ok(Some("value3".to_owned())));
    let line = files.remove("key3".to_owned()).unwrap();
    disk.get_mut("db/data_0").unwrap().push(line);
    assert_eq!(store_get(&files, &disk, "key3"), Ok(None));

    let reopened = LogFiles::new(open_segment(&disk, 0), Vec::new(), 1, "db".to_owned());
    assert_eq!(store_get(&reopened, &disk, "key1"), Ok(Some("value1".to_owned())));
    assert_eq!(store_get(&reopened, &disk, "key2"), Ok(Some("value2".to_owned())));
    assert_eq!(store_get(&reopened, &disk, "key3"), Ok(None));
}

#[test]
fn newest_segment_answers() {
    let mut disk: Disk = HashMap::new();
    let mut files = LogFiles::new(open_segment(&disk, 0), Vec::new(), 1, "db".to_owned());
    store_set(&mut files, &mut disk, "k", "old");
    store_set(&mut files, &mut disk, "only_old", "x");
    rotate_and_compact(&mut files, &mut disk);
    store_set(&mut files, &mut disk, "k", "newer");
    rotate_and_compact(&mut files, &mut disk);
    assert_eq!(files.immutables().len(), 2);
    assert_eq!(files.locate("k"), Some(Located::Immutable(1)));
    assert_eq!(files.locate("only_old"), Some(Located::Immutable(0)));
    assert_eq!(files.locate("none"), None);
    assert_eq!(store_get(&files, &disk, "k"), Ok(Some("newer".to_owned())));
    assert_eq!(store_get(&files, &disk, "only_old"), Ok(Some("x".to_owned())));
    store_set(&mut files, &mut disk, "k", "newest");
    assert_eq!(files.locate("k"), Some(Located::Mutable));
    assert_eq!(store_get(&files, &disk, "k"), Ok(Some("newest".to_owned())));
    // a removal only reaches keys the mutable segment holds
    assert_eq!(files.remove("only_old".to_owned()), Err(Error::RemoveNotExistKey));
}

#[test]
fn identifiers_stay_distinct() {
    let mut disk: Disk = HashMap::new();
    let mut files = LogFiles::new(open_segment(&disk, 0), Vec::new(), 1, "db".to_owned());
    for round in 0..4 {
        store_set(&mut files, &mut disk, "k", &round.to_string());
        rotate_and_compact(&mut files, &mut disk);
    }
    let mut ids: Vec<usize> = files.immutables().iter().map(|s| s.id()).collect();
    ids.push(files.mutable().id());
    assert_eq!(ids, vec![0, 1, 2, 3, 4]);
    assert_eq!(files.next_id(), 5);
    assert_eq!(files.mutable().path(), "db/data_4");
    assert_eq!(store_get(&files, &disk, "k"), Ok(Some("3".to_owned())));
}

#[test]
fn compaction_threshold() {
    let mut disk: Disk = HashMap::new();
    let mut files = LogFiles::new(open_segment(&disk, 0), Vec::new(), 1, "db".to_owned());
    assert_eq!(COMPACTION_THRESHOLD, 1024 * 1024);
    store_set(&mut files, &mut disk, "k", "v");
    assert!(!files.needs_compaction());
    let overhead = files.mutable().len() as usize - 1;
    let big = "x".repeat(1024 * 1024 - overhead);
    let mut exact = LogFiles::new(open_segment(&HashMap::new(), 0), Vec::new(), 1, "db".to_owned());
    exact.set("k".to_owned(), big.clone()).unwrap();
    assert_eq!(exact.mutable().len(), 1024 * 1024);
    assert!(!exact.needs_compaction());
    exact.set("k".to_owned(), String::new()).unwrap();
    assert!(exact.needs_compaction());
}

#[test]
fn kv_store_test_open() {
    let names = ["data_2", "data_0", "data_1"];
    let pairs: Vec<(usize, String)> = names
        .iter()
        .map(|n| (check_and_get_file_id(n.to_string()), path_in("db", n)))
        .collect();
    let res = sort_file_ids(&pairs).unwrap();
    assert!(format!("{:?}", res[0]).contains("data_0"));
    assert!(format!("{:?}", res[1]).contains("data_1"));
    assert!(format!("{:?}", res[2]).contains("data_2"));
    assert!(sort_file_ids(&Vec::new()).unwrap().is_empty());
}

#[test]
fn open_rejects_stray_file() {
    assert_eq!(parse_file_id("data_0"), Some(0));
    assert_eq!(parse_file_id("notes.txt"), None);
    assert_eq!(parse_file_id("data_"), None);
    assert_eq!(parse_file_id("data_1a"), None);
    assert_eq!(parse_file_id("data_1.compact"), None);
    assert_eq!(parse_file_id("data_99999999999999999999999"), None);
    assert_eq!(parse_file_id("data_007"), Some(7));
    assert_eq!(check_and_get_file_id("data_12".to_owned()), 12);
}

#[test]
fn plan_open_layouts() {
    let plan = plan_open("db", &Vec::new()).unwrap();
    assert!(plan.create_mutable);
    assert_eq!(plan.mutable, (0, "db/data_0".to_owned()));
    assert!(plan.immutables.is_empty());
    assert_eq!(plan.next_id, 1);

    let pairs = vec![(7, "db/data_7".to_owned()), (2, "db/data_2".to_owned()), (5, "db/data_5".to_owned())];
    let plan = plan_open("db", &pairs).unwrap();
    assert!(!plan.create_mutable);
    assert_eq!(plan.mutable, (7, "db/data_7".to_owned()));
    assert_eq!(plan.immutables, vec![(2, "db/data_2".to_owned()), (5, "db/data_5".to_owned())]);
    assert_eq!(plan.next_id, 8);

    let dup = vec![(1, "db/data_1".to_owned()), (1, "db/data_01".to_owned())];
    assert_eq!(plan_open("db", &dup).err(), Some(LayoutError::DuplicateId));
    let top = vec![(usize::MAX, "db/x".to_owned())];
    assert_eq!(plan_open("db", &top).err(), Some(LayoutError::IdExhausted));
}

#[test]
fn names_and_paths() {
    assert_eq!(file_name(0), "data_0");
    assert_eq!(file_name(1234), "data_1234");
    assert_eq!(path_in("db", "data_1"), "db/data_1");
    assert_eq!(path_in("db/", "data_1"), "db/data_1");
    assert_eq!(path_in("", "data_1"), "data_1");
    assert_eq!(compact_path("db/data_1"), "db/data_1.compact");
}
