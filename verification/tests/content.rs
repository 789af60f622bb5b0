use image_worker::util::{
    detect_content_type, file_type, human_size, matches_pattern, numeric_permissions, sample_size,
    symbolic_permissions,
};

#[test]
fn detects_common_binary_signatures() {
    assert_eq!(detect_content_type(b"\x7fELF\x02"), "ELF 64-bit executable");
    assert_eq!(detect_content_type(b"PK\x03\x04"), "ZIP archive (possibly APK/JAR)");
    assert_eq!(detect_content_type(b"\x89PNG\r\n\x1a\n"), "PNG image");
}

#[test]
fn classifies_text_and_binary() {
    assert_eq!(
        detect_content_type(b"fstab.zuma\n/system /system ext4 ro\n"),
        "UTF-8 text"
    );
    assert_eq!(detect_content_type(b"\x00\xff\x01"), "binary data");
}

#[test]
fn permissions_are_shown() {
    assert_eq!(numeric_permissions(0o100644), "0644");
    assert_eq!(numeric_permissions(0o104755), "4755");
    assert_eq!(symbolic_permissions(0o40755), "drwxr-xr-x");
    assert_eq!(symbolic_permissions(0o104755), "-rwsr-xr-x");
    assert_eq!(symbolic_permissions(0o41777), "drwxrwxrwt");
    assert_eq!(file_type(0o40755), "directory");
    assert_eq!(file_type(0o120777), "symlink");
}

#[test]
fn sizes_are_shown_as_floats_show_them() {
    let units = ["B", "KiB", "MiB", "GiB", "TiB"];
    for size in [0u64, 1, 1023, 1024, 1025, 1536, 1048575, 1048576, 5_000_000_000, u64::MAX] {
        let mut value = size as f64;
        let mut unit = 0;
        while value >= 1024.0 && unit < units.len() - 1 {
            value /= 1024.0;
            unit += 1;
        }
        let wanted = if unit == 0 {
            format!("{size} B")
        } else {
            format!("{value:.1} {}", units[unit])
        };
        assert_eq!(human_size(size), wanted);
    }
}

#[test]
fn patterns_match_whole_names() {
    assert!(matches_pattern("fstab.zuma", "fstab.*"));
    assert!(matches_pattern("fstab.zuma", "*"));
    assert!(matches_pattern("a", "?"));
    assert!(!matches_pattern("ab", "?"));
    assert!(!matches_pattern("fstab.zuma", "fstab"));
    assert_eq!(sample_size(), 4096);
}
