use bytes::Bytes;
use hatp_engine::file_io::{FileIO, FileName, Files};
use hatp_engine::manifest::{decode_all_for_fuzz, encode_frame, Manifest, SNAPSHOT_THRESHOLD};
use hatp_engine::version_set::VersionEdit;
use hatp_engine::EngineError;
use std::cell::RefCell;
use std::collections::BTreeMap;
use std::io::{Error, ErrorKind};
use std::rc::Rc;

/// Files in memory that outlive the handles on them.
#[derive(Clone, Default)]
struct Disk {
    files: Rc<RefCell<BTreeMap<String, Vec<u8>>>>,
}

impl Disk {
    fn open(&self, name: &str) -> Handle {
        Handle { disk: self.clone(), name: name.to_string() }
    }

    fn bytes(&self, name: &str) -> Vec<u8> {
        self.files.borrow().get(name).cloned().unwrap_or_default()
    }

    fn put(&self, name: &str, data: Vec<u8>) {
        self.files.borrow_mut().insert(name.to_string(), data);
    }
}

struct Handle {
    disk: Disk,
    name: String,
}

impl FileIO for Handle {
    fn files(&self) -> Files {
        unreachable!("stands in contracts only")
    }

    fn current(&self) -> FileName {
        unreachable!("stands in contracts only")
    }

    fn wf(&self) -> bool {
        unreachable!("stands in contracts only")
    }

    fn write_all(&mut self, buf: &[u8]) -> Result<(), Error> {
        let mut files = self.disk.files.borrow_mut();
        files.entry(self.name.clone()).or_default().extend_from_slice(buf);
        Ok(())
    }

    fn sync_data(&mut self) -> Result<(), Error> {
        Ok(())
    }

    fn set_len(&mut self, len: u64) -> Result<(), Error> {
        let mut files = self.disk.files.borrow_mut();
        files.entry(self.name.clone()).or_default().truncate(len as usize);
        Ok(())
    }

    fn read_all(&mut self) -> Result<Vec<u8>, Error> {
        Ok(self.disk.bytes(&self.name))
    }

    fn write_atomic(&mut self, path: &str, data: &[u8]) -> Result<(), Error> {
        self.disk.put(path, data.to_vec());
        Ok(())
    }

    fn read_file(&mut self, path: &str) -> Result<Vec<u8>, Error> {
        match self.disk.files.borrow().get(path) {
            Some(data) => Ok(data.clone()),
            None => Err(Error::from(ErrorKind::NotFound)),
        }
    }

    fn remove_file(&mut self, path: &str) -> Result<(), Error> {
        self.disk.files.borrow_mut().remove(path);
        Ok(())
    }
}

fn open(disk: &Disk) -> Result<Manifest<Handle>, EngineError> {
    Manifest::open("MANIFEST", disk.open("MANIFEST"))
}

fn add_file(file_id: u64, level: u32) -> VersionEdit {
    VersionEdit::AddFile {
        file_id,
        level,
        min_key: Bytes::from_static(b"a"),
        max_key: Bytes::from_static(b"z"),
        bytes: 10,
        created_at: 100,
    }
}

#[test]
fn round_trip_add_and_next_file_id() {
    let disk = Disk::default();
    {
        let mut manifest = open(&disk).unwrap();
        manifest
            .append_batch(vec![add_file(1, 0), VersionEdit::NextFileId(2)])
            .unwrap();
    }
    let manifest = open(&disk).unwrap();
    let vs = manifest.version_set();
    assert_eq!(vs.files(0), vec![1]);
    assert_eq!(vs.next_file_id(), 2);
}

#[test]
fn dropped_prefix_round_trips() {
    let disk = Disk::default();
    {
        let mut manifest = open(&disk).unwrap();
        manifest
            .append_batch(vec![
                VersionEdit::DroppedPrefix(b"users\0".to_vec()),
                VersionEdit::UndroppedPrefix(b"users\0".to_vec()),
            ])
            .unwrap();
    }
    let manifest = open(&disk).unwrap();
    assert!(manifest.version_set().dropped_prefixes().is_empty());
}

#[test]
fn manifest_torn_tail_is_truncated() {
    let disk = Disk::default();
    {
        let mut manifest = open(&disk).unwrap();
        manifest.append_batch(vec![add_file(1, 0)]).unwrap();
    }
    let mut bytes = disk.bytes("MANIFEST");
    bytes.pop(); // lop one CRC byte → torn frame
    disk.put("MANIFEST", bytes);
    // Reopening must not error and must yield the still-complete prefix.
    let manifest = open(&disk).unwrap();
    assert!(manifest.version_set().files(0).is_empty());
}

#[test]
fn snapshot_rewrite_bounds_the_log() {
    let disk = Disk::default();
    {
        let mut manifest = open(&disk).unwrap();
        // Append past the threshold: the log must be rewritten to a
        // compact "current state" snapshot (much shorter than the append
        // history).
        for i in 0..(SNAPSHOT_THRESHOLD + 10) {
            manifest
                .append_batch(vec![VersionEdit::NextFileId(i as u64 + 1)])
                .unwrap();
        }
    }
    let manifest = open(&disk).unwrap();
    assert_eq!(
        manifest.version_set().next_file_id(),
        (SNAPSHOT_THRESHOLD + 10) as u64
    );
    // The rewritten file is a snapshot of live state, not the full history.
    let size = disk.bytes("MANIFEST").len();
    assert!(size < 8 * 1024, "snapshot must be compact, got {size} bytes");
}

#[test]
fn rejects_unsupported_format() {
    let disk = Disk::default();
    disk.put("MANIFEST", b"ARROW_IPC_LEGACY".to_vec());
    let err = match open(&disk) {
        Ok(_) => panic!("another format was accepted"),
        Err(e) => e,
    };
    assert!(matches!(err, EngineError::CorruptMessage(_)));
}

#[test]
fn appends_after_a_torn_tail_are_kept() {
    let disk = Disk::default();
    {
        let mut manifest = open(&disk).unwrap();
        manifest.append_batch(vec![add_file(1, 0)]).unwrap();
        manifest.append_batch(vec![add_file(2, 0)]).unwrap();
    }
    let mut bytes = disk.bytes("MANIFEST");
    bytes.pop();
    disk.put("MANIFEST", bytes);
    {
        let mut manifest = open(&disk).unwrap();
        manifest.append_batch(vec![add_file(3, 1)]).unwrap();
    }
    let vs = open(&disk).unwrap().version_set();
    assert_eq!(vs.files(0), vec![1]);
    assert_eq!(vs.files(1), vec![3]);
    assert_eq!(vs.file_level_for(3), Some(1));
    assert_eq!(vs.candidate_files(b"m"), vec![3, 1]);
    assert!(vs.candidate_files(b"zz").is_empty());
}

#[test]
fn dropped_prefixes_survive_a_reopening() {
    let disk = Disk::default();
    {
        let mut manifest = open(&disk).unwrap();
        manifest.append_batch(vec![VersionEdit::DroppedPrefix(b"t\0".to_vec())]).unwrap();
    }
    assert_eq!(open(&disk).unwrap().version_set().dropped_prefixes(), vec![b"t\0".to_vec()]);
}

#[test]
fn decoding_stops_before_a_torn_edit() {
    let mut buf = Vec::new();
    encode_frame(&mut buf, &add_file(1, 0)).unwrap();
    let first = buf.len();
    encode_frame(&mut buf, &VersionEdit::UndroppedPrefix(b"t\0".to_vec())).unwrap();
    assert_eq!(decode_all_for_fuzz(&buf).unwrap().len(), 2);
    assert_eq!(decode_all_for_fuzz(&buf[..buf.len() - 1]).unwrap().len(), 1);
    assert!(decode_all_for_fuzz(&buf[..first - 1]).unwrap().is_empty());
}

#[test]
fn a_torn_manifest_keeps_its_edits_through_a_rewriting() {
    let disk = Disk::default();
    {
        let mut manifest = open(&disk).unwrap();
        manifest.append_batch(vec![add_file(1, 0), VersionEdit::NextFileId(2)]).unwrap();
    }
    let mut bytes = disk.bytes("MANIFEST");
    bytes.extend_from_slice(&[9, 0, 0, 0, 1]);
    disk.put("MANIFEST", bytes);
    {
        let mut manifest = open(&disk).unwrap();
        assert_eq!(manifest.version_set().files(0), vec![1]);
        for i in 0..(SNAPSHOT_THRESHOLD + 10) {
            manifest.append_batch(vec![VersionEdit::NextFileId(i as u64 + 3)]).unwrap();
        }
        manifest.append_batch(vec![add_file(2, 1)]).unwrap();
    }
    let vs = open(&disk).unwrap().version_set();
    assert_eq!(vs.files(0), vec![1]);
    assert_eq!(vs.files(1), vec![2]);
    assert_eq!(vs.next_file_id(), (SNAPSHOT_THRESHOLD + 12) as u64);
}
