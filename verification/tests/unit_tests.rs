use rusfind::Cli;
use rusfind::EntryKind;
use rusfind::Metadata;
use rusfind::MetadataCache;
use rusfind::SearchOptions;
use rusfind::apply_filters;
use rusfind::format_file_info;
use rusfind::format_permission_bits;
use rusfind::format_permissions;
use rusfind::format_system_time;
use rusfind::format_u64;
use rusfind::pad_left;

fn opts(pattern: Option<&str>, kind: Option<&str>) -> SearchOptions {
    SearchOptions {
        name_pattern: pattern.map(|p| p.to_string()),
        file_type: kind.map(|k| k.to_string()),
    }
}

#[test]
fn filter_no_pattern_no_kind_accepts_everything() {
    assert!(apply_filters(&opts(None, None), "anything", true, false));
    assert!(apply_filters(&opts(None, None), "", false, true));
    assert!(apply_filters(&opts(None, None), "even.other", false, false));
}

#[test]
fn filter_pattern_is_case_insensitive_substring() {
    assert!(apply_filters(&opts(Some("file"), None), "myFILE.txt", true, false));
    assert!(apply_filters(&opts(Some("FILE"), None), "file1.txt", true, false));
    assert!(!apply_filters(&opts(Some("file"), None), "notes.txt", true, false));
    assert!(apply_filters(&opts(Some(""), None), "anything", true, false));
}

#[test]
fn filter_kind_restriction() {
    assert!(apply_filters(&opts(None, Some("f")), "a", true, false));
    assert!(!apply_filters(&opts(None, Some("f")), "a", false, true));
    assert!(!apply_filters(&opts(None, Some("f")), "a", false, false));
    assert!(apply_filters(&opts(None, Some("d")), "a", false, true));
    assert!(!apply_filters(&opts(None, Some("d")), "a", true, false));
    // An unrecognized restriction accepts nothing on the kind axis.
    assert!(!apply_filters(&opts(None, Some("x")), "a", true, false));
    assert!(!apply_filters(&opts(None, Some("x")), "a", false, true));
}

#[test]
fn filter_both_axes_must_hold() {
    assert!(apply_filters(&opts(Some("log"), Some("f")), "app.log", true, false));
    assert!(!apply_filters(&opts(Some("log"), Some("f")), "app.log", false, true));
    assert!(!apply_filters(&opts(Some("log"), Some("f")), "app.txt", true, false));
}

fn meta(kind: EntryKind) -> Metadata {
    Metadata { kind, len: 1, mode: 0o600, modified_secs: 5, modified_nanos: 0 }
}

#[test]
fn cache_miss_then_store_then_hit() {
    let mut cache = MetadataCache::new();
    let path = "/r/a".to_string();
    assert!(cache.get_metadata(&path).is_none());
    cache.store(path.clone(), meta(EntryKind::File));
    let got = cache.get_metadata(&path).unwrap();
    assert_eq!(got.kind, EntryKind::File);
    assert!(cache.get_metadata(&"/r/b".to_string()).is_none());
}

#[test]
fn cache_first_stored_value_wins() {
    let mut cache = MetadataCache::new();
    let path = "/r/a".to_string();
    cache.store(path.clone(), meta(EntryKind::File));
    cache.store(path.clone(), meta(EntryKind::Directory));
    let got = cache.get_metadata(&path).unwrap();
    assert_eq!(got.kind, EntryKind::File);
}

#[test]
fn cache_holds_many_paths() {
    let mut cache = MetadataCache::new();
    for i in 0..20 {
        cache.store(format!("/r/{i}"), meta(EntryKind::File));
    }
    for i in 0..20 {
        assert!(cache.get_metadata(&format!("/r/{i}")).is_some());
    }
    assert!(cache.get_metadata(&"/r/20".to_string()).is_none());
}

#[test]
fn permission_bits_render_exactly() {
    assert_eq!(format_permission_bits(0o7), "rwx");
    assert_eq!(format_permission_bits(0o5), "r-x");
    assert_eq!(format_permission_bits(0o4), "r--");
    assert_eq!(format_permission_bits(0o2), "-w-");
    assert_eq!(format_permission_bits(0o0), "---");
}

#[test]
fn permissions_render_all_three_groups() {
    assert_eq!(format_permissions(0o755), "rwxr-xr-x");
    assert_eq!(format_permissions(0o644), "rw-r--r--");
    assert_eq!(format_permissions(0o000), "---------");
}

#[test]
fn decimal_rendering_is_exact() {
    assert_eq!(format_u64(0), "0");
    assert_eq!(format_u64(7), "7");
    assert_eq!(format_u64(10), "10");
    assert_eq!(format_u64(12345), "12345");
    assert_eq!(format_u64(u64::MAX), "18446744073709551615");
}

#[test]
fn padding_is_exact() {
    assert_eq!(pad_left("42".to_string(), 8), "      42");
    assert_eq!(pad_left("123456789".to_string(), 8), "123456789");
    assert_eq!(pad_left("".to_string(), 3), "   ");
}

#[test]
fn system_time_renders_with_chrono() {
    assert_eq!(format_system_time(0, 0), "1970-01-01 00:00:00");
    assert_eq!(format_system_time(1431648000, 0), "2015-05-15 00:00:00");
    assert_eq!(format_system_time(-1, 0), "1969-12-31 23:59:59");
}

#[test]
fn file_info_line_is_exact() {
    let m = Metadata {
        kind: EntryKind::File,
        len: 14,
        mode: 0o644,
        modified_secs: 1431648000,
        modified_nanos: 0,
    };
    let line = format_file_info(&"/r/file1.txt".to_string(), &m);
    assert_eq!(line, "-rw-r--r--       14 2015-05-15 00:00:00 /r/file1.txt");

    let d = Metadata {
        kind: EntryKind::Directory,
        len: 4096,
        mode: 0o755,
        modified_secs: 0,
        modified_nanos: 0,
    };
    let line = format_file_info(&"/r/subdir".to_string(), &d);
    assert_eq!(line, "drwxr-xr-x     4096 1970-01-01 00:00:00 /r/subdir");
}

#[test]
fn cli_derives_search_options() {
    let cli = Cli {
        path: ".".to_string(),
        name: "file".to_string(),
        f_type: "f".to_string(),
        threads: 4,
    };
    let options = cli.search_options();
    assert_eq!(options.name_pattern.as_deref(), Some("file"));
    assert_eq!(options.file_type.as_deref(), Some("f"));
    assert_eq!(cli.path, ".");
    assert_eq!(cli.threads, 4);
}
