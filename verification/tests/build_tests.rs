use asset_archive::archive::{normalize_root, relative_path, AssetArhiver, TargetKind};
use asset_archive::asset::ArchiveError;
use asset_archive::indexer::AssetIndexer;

#[test]
fn scenario_two_files() {
    // a.json holds 12 bytes of JSON, b/c.txt holds 5 bytes of text
    let a_content: &[u8] = b"{\"k\": \"ab\"}\n";
    let c_content: &[u8] = b"hello";
    assert_eq!(a_content.len(), 12);
    assert_eq!(c_content.len(), 5);

    let mut builder = AssetArhiver::new();
    let line_a = builder.record_file("a.json", a_content.len() as u64);
    let line_c = builder.record_file("b/c.txt", c_content.len() as u64);
    assert_eq!(line_a, "a.json//0//12//application/json\n");
    assert_eq!(line_c, "b/c.txt//12//5//text/plain\n");
    assert_eq!(builder.current_offset(), 17);

    let mut blob: Vec<u8> = Vec::new();
    blob.extend_from_slice(a_content);
    blob.extend_from_slice(c_content);
    assert_eq!(blob.len(), 17);

    let index_text = format!("{line_a}{line_c}");
    let indexer = AssetIndexer::new(&index_text).unwrap();

    let a = indexer.locate_asset("a.json").unwrap();
    assert_eq!(a.offset, 0);
    assert_eq!(a.len, 12);
    assert_eq!(a.mime, "application/json");
    assert_eq!(&blob[a.offset as usize..(a.offset + a.len) as usize], a_content);

    let c = indexer.locate_asset("b/c.txt").unwrap();
    assert_eq!(c.offset, 12);
    assert_eq!(c.len, 5);
    assert_eq!(c.mime, "text/plain");
    assert_eq!(&blob[c.offset as usize..(c.offset + c.len) as usize], c_content);
}

#[test]
fn unknown_extension_gets_empty_mime() {
    let mut builder = AssetArhiver::new();
    let line = builder.record_file("data.zzzqqq", 3);
    assert_eq!(line, "data.zzzqqq//0//3//\n");
}

#[test]
fn offsets_accumulate_in_write_order() {
    let mut builder = AssetArhiver::new();
    let l1 = builder.record_file("one.txt", 1000);
    let l2 = builder.record_file("two.txt", 0);
    let l3 = builder.record_file("three.txt", 24);
    assert_eq!(l1, "one.txt//0//1000//text/plain\n");
    assert_eq!(l2, "two.txt//1000//0//text/plain\n");
    assert_eq!(l3, "three.txt//1000//24//text/plain\n");
    assert_eq!(builder.current_offset(), 1024);
}

#[test]
fn rebuild_same_order_is_identical() {
    let mut b1 = AssetArhiver::new();
    let mut b2 = AssetArhiver::new();
    let lines1 = vec![b1.record_file("a.json", 12), b1.record_file("b/c.txt", 5)];
    let lines2 = vec![b2.record_file("a.json", 12), b2.record_file("b/c.txt", 5)];
    assert_eq!(lines1, lines2);
    assert_eq!(b1.current_offset(), b2.current_offset());
}

#[test]
fn rebuild_other_order_keeps_len_and_mime() {
    let mut b1 = AssetArhiver::new();
    let i1 = {
        let l = format!(
            "{}{}",
            b1.record_file("a.json", 12),
            b1.record_file("b/c.txt", 5)
        );
        AssetIndexer::new(&l).unwrap();
        l
    };
    let mut b2 = AssetArhiver::new();
    let i2 = format!(
        "{}{}",
        b2.record_file("b/c.txt", 5),
        b2.record_file("a.json", 12)
    );
    let m1 = AssetIndexer::new(&i1).unwrap();
    let m2 = AssetIndexer::new(&i2).unwrap();
    for path in ["a.json", "b/c.txt"] {
        let a1 = m1.locate_asset(path).unwrap();
        let a2 = m2.locate_asset(path).unwrap();
        assert_eq!(a1.len, a2.len);
        assert_eq!(a1.mime, a2.mime);
    }
    // offsets differ with the traversal order, but stay non-overlapping
    assert_eq!(m1.locate_asset("a.json").unwrap().offset, 0);
    assert_eq!(m2.locate_asset("a.json").unwrap().offset, 5);
}

#[test]
fn check_path_rejects_occupied_destination() {
    // overwrite disallowed: an occupied destination fails, nothing is removed
    assert_eq!(
        AssetArhiver::check_path(TargetKind::FileOrSymlink, false),
        Err(ArchiveError::AlreadyExists)
    );
    // overwrite allowed: the occupant is to be removed first
    assert_eq!(
        AssetArhiver::check_path(TargetKind::FileOrSymlink, true),
        Ok(true)
    );
    // a directory or other occupant is invalid whatever the flag says
    assert_eq!(
        AssetArhiver::check_path(TargetKind::Other, false),
        Err(ArchiveError::InvalidTarget)
    );
    assert_eq!(
        AssetArhiver::check_path(TargetKind::Other, true),
        Err(ArchiveError::InvalidTarget)
    );
    // an absent destination is fine and nothing is removed
    assert_eq!(AssetArhiver::check_path(TargetKind::Missing, false), Ok(false));
    assert_eq!(AssetArhiver::check_path(TargetKind::Missing, true), Ok(false));
}

#[test]
fn normalize_root_strips_one_trailing_slash() {
    assert_eq!(normalize_root("assets/"), "assets");
    assert_eq!(normalize_root("assets"), "assets");
    assert_eq!(normalize_root("assets//"), "assets/");
    assert_eq!(normalize_root(""), "");
}

#[test]
fn relative_path_strips_root_and_separator() {
    assert_eq!(relative_path("assets", "assets/b/c.txt").unwrap(), "b/c.txt");
    assert_eq!(relative_path("assets", "assets/a.json").unwrap(), "a.json");
    assert_eq!(relative_path("assets", "other/a.json"), None);
    assert_eq!(relative_path("assets", "assets"), None);
    assert_eq!(relative_path("assets", "assetsx/a"), None);
}

#[test]
fn largest_length_renders_and_parses_back() {
    let mut builder = AssetArhiver::new();
    let line = builder.record_file("big.bin", u64::MAX);
    assert_eq!(line, format!("big.bin//0//{}//application/octet-stream\n", u64::MAX));
    let indexer = AssetIndexer::new(&line).unwrap();
    let a = indexer.locate_asset("big.bin").unwrap();
    assert_eq!(a.offset, 0);
    assert_eq!(a.len, u64::MAX);
}
