use std::io::{Cursor, Write};

use stm32_mass_storage::vendor::archive::{leads_below, wanted_path, BadEntry, Bundle};
use stm32_mass_storage::vendor::bindings::{
    build_file, clang_args, fail_missing, libclang_path, missing_message, pick_libclang, BuildDir,
    BUILD_FILE_COUNT,
};
use stm32_mass_storage::vendor::digest::{hex, md5_file, sha256_file};
use stm32_mass_storage::vendor::files::{
    is_consumed, missing_error, required_file, REQUIRED_COUNT,
};
use stm32_mass_storage::vendor::lock::{
    consumed_path, lock_check, lock_file, parse_lock, verify_against_lock, LockCheck, LockEntry,
    Verify,
};
use stm32_mass_storage::vendor::relock::{read_usb_version, relock};
use stm32_mass_storage::vendor::setup::{
    entered_path, md5_note, parse_command, resolve_zip, Command, ZipChoice,
};

fn strings(list: &[&str]) -> Vec<String> {
    list.iter().map(|s| s.to_string()).collect()
}

#[test]
fn consumed_files_are_told_apart() {
    for path in [
        "USB-D/Inc/USB.h",
        "USB-D/Inc/sub/dir.h",
        "USB-D/Inc/.h",
        "USB-D/Config/USB_Conf.h",
        "USB-D/Lib/libUSBD_v7m_t_vfpv4_le_r.a",
        "SEGGER/Inc/SEGGER.h",
        "SEGGER/Inc/Global.h",
    ] {
        assert!(is_consumed(path));
    }
    for path in [
        "",
        "USB-D/Inc/USB.c",
        "USB-D/Inc/",
        "usb-d/Inc/USB.h",
        "X/USB-D/Inc/USB.h",
        "USB-D/Config/Other.h",
        "USB-D/Lib/libUSBD_v7m_t_vfpv4_le_d.a",
        "SEGGER/Inc/SEGGER.h.bak",
        "SEGGER/Inc/SEGGER_RTT.h",
    ] {
        assert!(!is_consumed(path));
    }
    assert!((0..REQUIRED_COUNT).all(|i| is_consumed(required_file(i))));
}

#[test]
fn missing_files_are_named() {
    assert_eq!(missing_error(&vec![true; 6]), None);
    assert_eq!(
        missing_error(&vec![true, false, true, true, false, true]).unwrap(),
        "the ZIP did not contain all required files (missing: USB-D/Inc/USB_MSD.h, \
         SEGGER/Inc/SEGGER.h). Is this the emUSB-Device eval bundle from \
         https://www.segger.com/downloads/empower/?"
    );
}

#[test]
fn digests_are_hexadecimal() {
    assert_eq!(hex(&[0x00, 0x0f, 0xa5, 0xff]), "000fa5ff");
    assert_eq!(hex(&[]), "");
    assert_eq!(
        sha256_file(b"abc"),
        "ba7816bf8f01cfea414140de5dae2223b00361a396177a9cb410ff61f20015ad"
    );
    assert_eq!(md5_file(b"abc"), "900150983cd24fb0d6963f7d28e17f72");
}

#[test]
fn lock_files_are_parsed() {
    let lock = "# comment\r\n\n  aa  x/y.h  \nbb   z\n\t# another\ncc  a  b";
    let entries = parse_lock(lock).unwrap_or_else(|_| panic!("malformed"));
    let pairs: Vec<(&str, &str)> =
        entries.iter().map(|e| (e.hash.as_str(), e.rel.as_str())).collect();
    assert_eq!(pairs, [("aa", "x/y.h"), ("bb", " z"), ("cc", "a  b")]);
    assert_eq!(parse_lock("").unwrap_or_else(|_| panic!("malformed")).len(), 0);
    match parse_lock("aa  x\n  bb y \ncc") {
        Err(line) => assert_eq!(line, "bb y"),
        Ok(_) => panic!("accepted"),
    }
}

#[test]
fn files_are_compared_with_the_lock() {
    let entries = vec![
        lock_file("a".to_string(), b"one"),
        lock_file("b".to_string(), b"two"),
        lock_file("c".to_string(), b"three"),
    ];
    let same = vec![Some(b"one".to_vec()), Some(b"two".to_vec()), Some(b"three".to_vec())];
    assert_eq!(verify_against_lock(&entries, &same), (Verify::Match, vec![]));
    let other = vec![None, Some(b"two".to_vec()), Some(b"3".to_vec())];
    assert_eq!(verify_against_lock(&entries, &other), (Verify::Mismatch(2), vec![0, 2]));
}

#[test]
fn relocking_writes_what_verifies() {
    let files: [(&str, &[u8]); 3] = [
        ("USB-D/Inc/USB.h", b"header"),
        ("USB-D/Inc/a  b.h", b"spaces"),
        ("SEGGER/Inc/Global.h", b"global"),
    ];
    let entries: Vec<LockEntry> =
        files.iter().map(|(rel, data)| lock_file(rel.to_string(), data)).collect();
    let lock = relock(&entries, Some("3.60.0")).unwrap();
    let lines: Vec<&str> = lock.lines().collect();
    assert_eq!(
        lines[..7],
        [
            "# SEGGER emUSB-Device vendored-file lock -- DO NOT edit by hand.",
            "# Regenerate with `cargo xtask relock-segger` after a sanctioned",
            "# version bump. These files are NOT committed (SFL forbids it);",
            "# this lock only pins their identity. See docs/SEGGER_SETUP.md.",
            "# bundle = SEGGER emPower, Embedded Studio (2023-06-26)",
            "# bundle_md5 = f0cc414564ea198195c44e5f8c09e409",
            "# emusb_device_version = 3.60.0",
        ]
    );
    let mut sorted: Vec<String> =
        files.iter().map(|(rel, data)| format!("{}  {}", sha256_file(data), rel)).collect();
    sorted.sort();
    assert_eq!(lines[7..], sorted);
    assert!(lock.ends_with('\n'));

    let read = parse_lock(&lock).unwrap_or_else(|_| panic!("malformed"));
    let contents: Vec<Option<Vec<u8>>> = read
        .iter()
        .map(|e| files.iter().find(|(rel, _)| *rel == e.rel).map(|(_, data)| data.to_vec()))
        .collect();
    assert_eq!(verify_against_lock(&read, &contents), (Verify::Match, vec![]));
}

#[test]
fn nothing_is_locked_without_files() {
    assert_eq!(relock(&Vec::new(), Some("1")), None);
    let one = vec![lock_file("SEGGER/Inc/Global.h".to_string(), b"")];
    let lock = relock(&one, None).unwrap();
    assert!(lock.contains("# emusb_device_version = unknown\n"));
}

#[test]
fn the_version_is_read_from_the_header() {
    let header = "/* x */\n  #define USB_VERSION   36000uL // Format: Mmmrr\n";
    assert_eq!(read_usb_version(header).unwrap(), "3.60.0");
    assert_eq!(read_usb_version("#define USB_VERSION 12345").unwrap(), "1.23.45");
    assert_eq!(
        read_usb_version("#define USB_VERSION_X 5\n#define USB_VERSION\t7").unwrap(),
        "0.0.7"
    );
    assert_eq!(read_usb_version("#define USB_VERSION //36000"), None);
    assert_eq!(read_usb_version("#define USB_VERSION 4294967296"), None);
    assert_eq!(read_usb_version("#define USB_VERSION 4294967295").unwrap(), "429496.72.95");
    assert_eq!(read_usb_version(""), None);
}

#[test]
fn paths_of_the_vendor_directory_use_slashes() {
    assert_eq!(consumed_path("USB-D\\Inc\\USB.h").unwrap(), "USB-D/Inc/USB.h");
    assert_eq!(consumed_path("README.md"), None);
}

#[test]
fn bundles_give_up_their_consumed_files() {
    let mut writer = zip::ZipWriter::new(Cursor::new(Vec::new()));
    let options = zip::write::SimpleFileOptions::default();
    for (name, data) in [
        ("USB-D/Inc/USB.h", &b"#define USB_VERSION 36000"[..]),
        ("README.txt", b"no"),
        ("/USB-D/Inc/absolute.h", b"no"),
        ("../USB-D/Inc/up.h", b"no"),
        ("USB-D/Inc/..\\..\\..\\..\\out.h", b"no"),
        ("USB-D\\Inc\\USB_MSD.h", b"msd"),
        ("USB-D/Inc/a..b.h", b"dots"),
        ("USB-D/Inc/../Inc/back.h", b"back"),
        ("SEGGER/Inc/Global.h", b"global"),
    ] {
        writer.start_file(name, options).unwrap();
        writer.write_all(data).unwrap();
    }
    writer.add_directory("USB-D/Inc/dir.h", options).unwrap();
    let bytes = writer.finish().unwrap().into_inner();

    let mut bundle = Bundle::open(bytes).unwrap_or_else(|| panic!("no archive"));
    assert_eq!(bundle.len(), 10);
    let mut files = Vec::new();
    for i in 0..bundle.len() {
        if let Some(file) = bundle.extract(i).unwrap_or_else(|_| panic!("unreadable")) {
            files.push((file.rel, file.contents));
        }
    }
    assert_eq!(
        files,
        [
            ("USB-D/Inc/USB.h".to_string(), b"#define USB_VERSION 36000".to_vec()),
            ("USB-D/Inc/USB_MSD.h".to_string(), b"msd".to_vec()),
            ("USB-D/Inc/a..b.h".to_string(), b"dots".to_vec()),
            ("USB-D/Inc/../Inc/back.h".to_string(), b"back".to_vec()),
            ("SEGGER/Inc/Global.h".to_string(), b"global".to_vec()),
        ]
    );
    assert!(matches!(bundle.extract(10), Err(BadEntry { index: 10 })));
    assert!(Bundle::open(b"no archive".to_vec()).is_none());
}

#[test]
fn damaged_entries_are_reported() {
    let mut writer = zip::ZipWriter::new(Cursor::new(Vec::new()));
    let options = zip::write::SimpleFileOptions::default()
        .compression_method(zip::CompressionMethod::Stored);
    writer.start_file("SEGGER/Inc/Global.h", options).unwrap();
    writer.write_all(b"precious contents").unwrap();
    let mut bytes = writer.finish().unwrap().into_inner();
    let at = bytes.windows(8).position(|w| w == b"precious").unwrap();
    bytes[at] = b'P';
    let mut bundle = Bundle::open(bytes).unwrap_or_else(|| panic!("no archive"));
    assert!(matches!(bundle.extract(0), Err(BadEntry { index: 0 })));
}

#[test]
fn only_safe_consumed_files_are_wanted() {
    assert_eq!(wanted_path(Some("SEGGER\\Inc\\SEGGER.h"), true).unwrap(), "SEGGER/Inc/SEGGER.h");
    assert_eq!(wanted_path(Some("SEGGER/Inc/SEGGER.h"), false), None);
    assert_eq!(wanted_path(Some("other"), true), None);
    assert_eq!(wanted_path(None, true), None);
}

#[test]
fn files_land_below_the_vendor_directory() {
    let below = |path: &str| leads_below(&path.chars().collect::<Vec<char>>());
    for path in ["", "a", "a/b", "a/../b", "./a", "a//b", "a/..", "...", "a..b/c", "a/./../b"] {
        assert!(below(path), "{path}");
    }
    for path in ["/", "/a", "..", "../a", "a/../..", "a/../../b/c", "./..", "a//../.."] {
        assert!(!below(path), "{path}");
    }
    assert_eq!(wanted_path(Some("USB-D/Inc/..\\..\\..\\..\\x.h"), true), None);
    assert_eq!(wanted_path(Some("USB-D/Inc/../../../x.h"), true), None);
    assert_eq!(wanted_path(Some("USB-D/Inc/../x.h"), true).unwrap(), "USB-D/Inc/../x.h");
}

#[test]
fn the_bundle_is_looked_for_in_order() {
    let args = strings(&["x", "--zip", "a.zip", "--zip", "b.zip"]);
    assert!(matches!(resolve_zip(&args, true, true), ZipChoice::Given(p) if p == "a.zip"));
    let args = strings(&["--zip"]);
    assert!(matches!(resolve_zip(&args, true, true), ZipChoice::MissingPath));
    let args = strings(&["--zap", "a.zip"]);
    assert!(matches!(resolve_zip(&args, true, true), ZipChoice::FromEnvironment));
    assert!(matches!(resolve_zip(&args, false, true), ZipChoice::Ask));
    assert!(matches!(resolve_zip(&args, false, false), ZipChoice::NotGiven));
}

#[test]
fn entered_paths_lose_their_quotes() {
    assert_eq!(entered_path("  \"/tmp/a b.zip\"\n").unwrap(), "/tmp/a b.zip");
    assert_eq!(entered_path("'\"x'\r\n").unwrap(), "x");
    assert_eq!(entered_path("' x '").unwrap(), " x ");
    assert_eq!(entered_path(" '' \n"), None);
    assert_eq!(entered_path(""), None);
}

#[test]
fn bundles_are_told_by_their_digest() {
    assert_eq!(
        md5_note(b"abc"),
        "note: ZIP MD5 900150983cd24fb0d6963f7d28e17f72 != expected \
         f0cc414564ea198195c44e5f8c09e409.\n      \
         Likely a newer bundle than locked; will verify per file instead."
    );
}

#[test]
fn commands_are_told_apart() {
    assert_eq!(parse_command(Some("setup-segger")), Command::Setup);
    assert_eq!(parse_command(Some("relock-segger")), Command::Relock);
    assert_eq!(parse_command(Some("setup")), Command::Usage);
    assert_eq!(parse_command(None), Command::Usage);
}

#[test]
fn the_first_libclang_is_picked() {
    assert_eq!(pick_libclang(false, &vec![true, true, true]), Some("/usr/lib/llvm-19/lib"));
    assert_eq!(pick_libclang(false, &vec![false, false, true]), Some("/usr/lib"));
    assert_eq!(pick_libclang(false, &vec![false, false, false]), None);
    assert_eq!(pick_libclang(true, &vec![true, true, true]), None);
    assert_eq!(libclang_path(1), "/usr/lib/llvm-18/lib");
}

#[test]
fn headers_are_parsed_for_the_target() {
    assert_eq!(
        clang_args("i", "c", "s", "h"),
        ["-target", "thumbv7em-none-eabihf", "-fshort-enums", "-Ii", "-Ic", "-Is", "-Ih"]
    );
}

#[test]
fn builds_without_the_files_say_what_to_do() {
    let message = fail_missing("vendor/USB-D", &strings(&["a/USB.h", "b/lib.a"]));
    assert!(message.starts_with("\n\n========"));
    assert!(message.contains("\nSEGGER emUSB-Device files not found.\n"));
    assert!(message.contains("Missing:\n    a/USB.h\n    b/lib.a\n\nProvide SEGGER emPower"));
    assert!(message.contains("\nvendor/USB-D/Lib/libUSBD_v7m_t_vfpv4_le_r.a\n"));
    assert!(message.ends_with("========\n"));
}

#[test]
fn builds_look_for_their_files() {
    let files: Vec<(BuildDir, &str)> = (0..BUILD_FILE_COUNT).map(build_file).collect();
    assert_eq!(
        files,
        [
            (BuildDir::Inc, "USB.h"),
            (BuildDir::Inc, "USB_MSD.h"),
            (BuildDir::Lib, "libUSBD_v7m_t_vfpv4_le_r.a"),
            (BuildDir::SeggerInc, "SEGGER.h"),
        ]
    );
    let paths = strings(&["a", "b", "c"]);
    assert_eq!(missing_message("dir", &paths, &vec![true, true, true]), None);
    assert_eq!(
        missing_message("dir", &paths, &vec![false, true, false]),
        Some(fail_missing("dir", &strings(&["a", "c"])))
    );
    assert_eq!(missing_message("dir", &vec![], &vec![]), None);
}

#[test]
fn builds_check_their_lock() {
    let a = lock_file("SEGGER/Inc/SEGGER.h".to_string(), b"a");
    let b = lock_file("SEGGER/Inc/Global.h".to_string(), b"b");
    let lock = relock(&vec![a, b], None).unwrap();
    let entries = parse_lock(&lock).unwrap();
    let with = |a: Option<&[u8]>, b: Option<&[u8]>| -> Vec<Option<Vec<u8>>> {
        let pick = |rel: &str| if rel.ends_with("SEGGER.h") { a } else { b };
        entries.iter().map(|e| pick(&e.rel).map(|c| c.to_vec())).collect()
    };
    assert!(matches!(lock_check(Some(&lock), &with(Some(b"a"), Some(b"b"))), LockCheck::Pass));
    let message = |check: LockCheck| match check {
        LockCheck::Fail(message) => message,
        _ => panic!("no failure"),
    };
    assert_eq!(
        message(lock_check(Some(&lock), &with(Some(b"a"), None))),
        "Vendored SEGGER files do not match vendor/segger.lock\n  mismatch: SEGGER/Inc/Global.h"
    );
    assert_eq!(message(lock_check(Some("# x\nbad line\n"), &vec![])), "malformed lock line: bad line");
    assert!(matches!(lock_check(None, &vec![]), LockCheck::Warn(_)));
}
