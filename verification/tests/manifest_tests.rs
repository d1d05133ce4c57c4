use pagedb::error::Error;
use pagedb::manifest::Manifest;
use pagedb::manifest::MemDir;
use pagedb::manifest::NewFile;
use pagedb::manifest::VersionEdit;

fn edit(adds: &[u32], dels: &[u32]) -> VersionEdit {
    VersionEdit {
        new_files: adds.iter().map(|id| NewFile::from_id(*id)).collect(),
        deleted_files: dels.to_vec(),
    }
}

fn added_ids(ve: &VersionEdit) -> Vec<u32> {
    ve.new_files.iter().map(|f| f.id).collect()
}

#[test]
fn empty_directory_has_no_versions() {
    let mut dir = MemDir::new();
    let manifest = Manifest::open(&mut dir).unwrap();
    assert_eq!(manifest.current_file_num(), None);
    let versions = manifest.list_versions(&dir).unwrap();
    assert_eq!(versions.len(), 0);
}

#[test]
fn maintain_current() {
    let mut dir = MemDir::new();
    {
        let mut manifest = Manifest::open(&mut dir).unwrap();
        let snapshot = VersionEdit::empty();
        manifest
            .record_version_edit(&mut dir, &edit(&[2, 3], &[1]), &snapshot)
            .unwrap();
        manifest
            .record_version_edit(&mut dir, &edit(&[4], &[]), &snapshot)
            .unwrap();
        manifest
            .record_version_edit(&mut dir, &edit(&[5], &[]), &snapshot)
            .unwrap();
    }
    {
        let manifest = Manifest::open(&mut dir).unwrap();
        let versions = manifest.list_versions(&dir).unwrap();
        assert_eq!(versions.len(), 4);
    }
}

#[test]
fn cleanup_when_restart() {
    let mut dir = MemDir::new();
    {
        let mut manifest = Manifest::open(&mut dir).unwrap();
        manifest.max_file_size = 1; // every append rolls
        let snapshot = VersionEdit::empty();
        for _ in 0..3 {
            manifest
                .record_version_edit(&mut dir, &edit(&[2, 3], &[1]), &snapshot)
                .unwrap();
        }
        assert_eq!(manifest.current_file_num(), Some(3));
        assert_eq!(dir.manifests.len(), 3);
        assert!(dir.current.is_some());
    }
    {
        let _ = Manifest::open(&mut dir).unwrap();
        assert_eq!(dir.manifests.len(), 1);
        assert_eq!(dir.manifests[0].0, 3);
        assert!(dir.current.is_some());
        assert_eq!(dir.temps.len(), 0);
    }
}

#[test]
fn roll_places_snapshot_before_edit_and_replays_in_order() {
    let mut dir = MemDir::new();
    let mut applied: Vec<u32> = Vec::new();
    {
        let mut manifest = Manifest::open(&mut dir).unwrap();
        manifest.max_file_size = 100;
        // each framed edit is 32 bytes; the empty snapshot frame is 16
        for i in 1..=4u32 {
            let snapshot = edit(&applied, &[]);
            let ve = edit(&[i], &[i.saturating_sub(10)]);
            manifest.record_version_edit(&mut dir, &ve, &snapshot).unwrap();
            applied.push(i);
        }
        // the first record rolled to file 1; appends filled it past the
        // threshold; the fourth record rolled again
        assert_eq!(manifest.current_file_num(), Some(2));
    }
    {
        let manifest = Manifest::open(&mut dir).unwrap();
        assert_eq!(manifest.current_file_num(), Some(2));
        let versions = manifest.list_versions(&dir).unwrap();
        // the rolled file holds the snapshot of the first three edits,
        // then the fourth edit itself
        assert_eq!(versions.len(), 2);
        assert_eq!(added_ids(&versions[0]), vec![1, 2, 3]);
        assert_eq!(added_ids(&versions[1]), vec![4]);
        assert_eq!(versions[1].deleted_files, vec![0]);
    }
}

#[test]
fn crash_between_roll_and_publish_is_invisible() {
    let mut dir = MemDir::new();
    let mut manifest = Manifest::open(&mut dir).unwrap();
    let snapshot = VersionEdit::empty();
    manifest
        .record_version_edit(&mut dir, &edit(&[7], &[]), &snapshot)
        .unwrap();
    let before: Vec<Vec<u32>> = manifest
        .list_versions(&dir)
        .unwrap()
        .iter()
        .map(added_ids)
        .collect();
    let pointer_before = dir.current.clone();

    // a crash after creating the next file but before publishing it
    dir.manifests.push((2, vec![1, 2, 3]));
    dir.temps.push(2);

    let manifest = Manifest::open(&mut dir).unwrap();
    assert_eq!(dir.current, pointer_before);
    assert_eq!(manifest.current_file_num(), Some(1));
    let after: Vec<Vec<u32>> = manifest
        .list_versions(&dir)
        .unwrap()
        .iter()
        .map(added_ids)
        .collect();
    assert_eq!(after, before);
    assert_eq!(dir.temps.len(), 0);
}

#[test]
fn malformed_current_pointer_is_corruption() {
    let mut dir = MemDir::new();
    dir.current = Some(vec![1, 2]);
    assert!(matches!(Manifest::open(&mut dir), Err(Error::Corrupted)));
}

#[test]
fn missing_manifest_file_is_io_failure() {
    let mut dir = MemDir::new();
    dir.current = Some(5u32.to_le_bytes().to_vec());
    let manifest = Manifest::open(&mut dir).unwrap();
    assert_eq!(manifest.current_file_num(), Some(5));
    assert!(matches!(manifest.list_versions(&dir), Err(Error::Io)));
}

#[test]
fn torn_record_is_corruption() {
    let mut dir = MemDir::new();
    let mut manifest = Manifest::open(&mut dir).unwrap();
    let snapshot = VersionEdit::empty();
    manifest
        .record_version_edit(&mut dir, &edit(&[1], &[]), &snapshot)
        .unwrap();
    // truncate the active file mid-record
    let bytes = &mut dir.manifests[0].1;
    bytes.truncate(bytes.len() - 1);
    assert!(matches!(
        manifest.list_versions(&dir),
        Err(Error::Corrupted)
    ));
}

#[test]
fn edit_codec_round_trip_exact_bytes() {
    let ve = edit(&[9], &[4, 5]);
    let bytes = ve.encode_to_vec();
    assert_eq!(
        bytes,
        vec![
            1, 0, 0, 0, // one new file
            9, 0, 0, 0, 9, 0, 0, 0, 9, 0, 0, 0, // id and both marks
            2, 0, 0, 0, // two deleted numbers
            4, 0, 0, 0, 5, 0, 0, 0,
        ]
    );
    let back = VersionEdit::decode(&bytes).unwrap();
    assert_eq!(added_ids(&back), vec![9]);
    assert_eq!(back.deleted_files, vec![4, 5]);
    assert!(VersionEdit::decode(&bytes[..bytes.len() - 1]).is_none());
}

#[test]
fn error_messages() {
    assert_eq!(Error::Corrupted.message(), "corrupted");
    assert_eq!(Error::Io.message(), "io");
}
