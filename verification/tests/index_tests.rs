use asset_archive::asset::ArchiveError;
use asset_archive::indexer::AssetIndexer;

#[test]
fn parses_a_small_index() {
    let text = "a.json//0//12//application/json\nb/c.txt//12//5//text/plain\n";
    let indexer = AssetIndexer::new(text).unwrap();
    let a = indexer.locate_asset("a.json").unwrap();
    assert_eq!(a.offset, 0);
    assert_eq!(a.len, 12);
    assert_eq!(a.mime, "application/json");
    let c = indexer.locate_asset("b/c.txt").unwrap();
    assert_eq!(c.offset, 12);
    assert_eq!(c.len, 5);
    assert_eq!(c.mime, "text/plain");
}

#[test]
fn missing_lookup_returns_none() {
    let text = "a.json//0//12//application/json\n";
    let indexer = AssetIndexer::new(text).unwrap();
    assert!(indexer.locate_asset("nonexistent/path").is_none());
}

#[test]
fn empty_index_has_no_assets() {
    let indexer = AssetIndexer::new("").unwrap();
    assert!(indexer.locate_asset("a").is_none());
}

#[test]
fn empty_lines_are_skipped() {
    let text = "\n\na//0//1//\n\nb//1//2//\n\n";
    let indexer = AssetIndexer::new(text).unwrap();
    assert_eq!(indexer.locate_asset("a").unwrap().len, 1);
    assert_eq!(indexer.locate_asset("b").unwrap().len, 2);
}

#[test]
fn final_line_without_newline_still_counts() {
    let text = "a//0//1//\nb//1//2//x/y";
    let indexer = AssetIndexer::new(text).unwrap();
    let b = indexer.locate_asset("b").unwrap();
    assert_eq!(b.offset, 1);
    assert_eq!(b.len, 2);
    assert_eq!(b.mime, "x/y");
}

#[test]
fn empty_mime_field_is_kept_verbatim() {
    let indexer = AssetIndexer::new("data.bin.weird//0//3//\n").unwrap();
    assert_eq!(indexer.locate_asset("data.bin.weird").unwrap().mime, "");
}

#[test]
fn duplicate_path_last_line_wins() {
    let text = "a//0//1//x/y\na//5//2//p/q\n";
    let indexer = AssetIndexer::new(text).unwrap();
    let a = indexer.locate_asset("a").unwrap();
    assert_eq!(a.offset, 5);
    assert_eq!(a.len, 2);
    assert_eq!(a.mime, "p/q");
}

#[test]
fn largest_u64_offset_parses() {
    let text = "a//18446744073709551615//0//\n";
    let indexer = AssetIndexer::new(text).unwrap();
    assert_eq!(indexer.locate_asset("a").unwrap().offset, u64::MAX);
}

#[test]
fn too_few_fields_is_malformed() {
    let r = AssetIndexer::new("a//0//12\n");
    assert_eq!(
        r.unwrap_err(),
        ArchiveError::MalformedIndex("a//0//12".to_string())
    );
}

#[test]
fn too_many_fields_is_malformed() {
    // a path holding the reserved delimiter corrupts the field count
    let r = AssetIndexer::new("a//b//0//12//text/plain\n");
    assert!(matches!(r.unwrap_err(), ArchiveError::MalformedIndex(_)));
}

#[test]
fn non_numeric_offset_is_malformed() {
    let r = AssetIndexer::new("a//x//12//text/plain\n");
    assert_eq!(
        r.unwrap_err(),
        ArchiveError::MalformedIndex("a//x//12//text/plain".to_string())
    );
}

#[test]
fn negative_or_signed_number_is_malformed() {
    assert!(matches!(
        AssetIndexer::new("a//-1//12//\n").unwrap_err(),
        ArchiveError::MalformedIndex(_)
    ));
    assert!(matches!(
        AssetIndexer::new("a//+1//12//\n").unwrap_err(),
        ArchiveError::MalformedIndex(_)
    ));
}

#[test]
fn overflowing_length_is_malformed() {
    let r = AssetIndexer::new("a//0//18446744073709551616//\n");
    assert!(matches!(r.unwrap_err(), ArchiveError::MalformedIndex(_)));
}

#[test]
fn empty_numeric_field_is_malformed() {
    let r = AssetIndexer::new("a////12//\n");
    assert!(matches!(r.unwrap_err(), ArchiveError::MalformedIndex(_)));
}

#[test]
fn first_malformed_line_is_reported() {
    let text = "a//0//1//\nbad line\nalso//bad\n";
    assert_eq!(
        AssetIndexer::new(text).unwrap_err(),
        ArchiveError::MalformedIndex("bad line".to_string())
    );
}

#[test]
fn later_lines_do_not_hide_earlier_errors() {
    let text = "bad\nb//0//1//\n";
    assert_eq!(
        AssetIndexer::new(text).unwrap_err(),
        ArchiveError::MalformedIndex("bad".to_string())
    );
}
