use std::io::Read;

use ferium::modpack::create;
use ferium::modpack::dedup_entries;
use ferium::modpack::plan_modpack_entries;
use ferium::modpack::ArchiveEntry;
use ferium::modpack::DirNode;
use ferium::modpack::DirTree;
use ferium::modpack::FileNode;

fn file(name: &str, data: &[u8]) -> FileNode {
    FileNode {
        name: name.to_string(),
        data: data.to_vec(),
    }
}

fn extras_tree() -> DirTree {
    DirTree {
        files: vec![file("x.png", b"icon"), file("extra.jar", b"extra bytes")],
        dirs: vec![DirNode {
            name: "nested".to_string(),
            tree: DirTree {
                files: vec![file("hidden.txt", b"should not appear")],
                dirs: Vec::new(),
            },
        }],
    }
}

fn overrides_tree() -> DirTree {
    DirTree {
        files: vec![file("options.txt", b"fov:90")],
        dirs: vec![DirNode {
            name: "configs".to_string(),
            tree: DirTree {
                files: vec![file("a.txt", b"alpha")],
                dirs: vec![DirNode {
                    name: "empty".to_string(),
                    tree: DirTree {
                        files: Vec::new(),
                        dirs: Vec::new(),
                    },
                }],
            },
        }],
    }
}

#[test]
fn plan_lists_metadata_extras_and_overrides() {
    let plan = plan_modpack_entries(
        b"{\"formatVersion\":1}".to_vec(),
        Some(extras_tree()),
        Some(overrides_tree()),
    );
    let names: Vec<&str> = plan.iter().map(|e| e.name.as_str()).collect();
    assert_eq!(
        names,
        [
            "modrinth.index.json",
            "overrides/x.png",
            "overrides/extra.jar",
            "overrides/options.txt",
            "overrides/configs/",
            "overrides/configs/a.txt",
            "overrides/configs/empty/",
        ]
    );
    assert!(plan[4].is_dir);
    assert!(!plan[5].is_dir);
    assert_eq!(plan[5].data, b"alpha");
}

#[test]
fn extras_subdirectories_contribute_nothing() {
    let plan = plan_modpack_entries(b"m".to_vec(), Some(extras_tree()), None);
    assert!(plan.iter().all(|e| !e.name.contains("hidden")));
    assert!(plan.iter().all(|e| !e.name.contains("nested")));
    let flat = DirTree {
        files: extras_tree().files,
        dirs: Vec::new(),
    };
    let flat_plan = plan_modpack_entries(b"m".to_vec(), Some(flat), None);
    let names: Vec<String> = plan.iter().map(|e| e.name.clone()).collect();
    let flat_names: Vec<String> = flat_plan.iter().map(|e| e.name.clone()).collect();
    assert_eq!(names, flat_names);
}

#[test]
fn dedup_keeps_the_last_write() {
    let entries = vec![
        ArchiveEntry {
            name: "overrides/dup.txt".to_string(),
            data: b"first".to_vec(),
            is_dir: false,
        },
        ArchiveEntry {
            name: "overrides/other.txt".to_string(),
            data: b"other".to_vec(),
            is_dir: false,
        },
        ArchiveEntry {
            name: "overrides/dup.txt".to_string(),
            data: b"second".to_vec(),
            is_dir: false,
        },
    ];
    let deduped = dedup_entries(entries);
    assert_eq!(deduped.len(), 2);
    assert_eq!(deduped[0].name, "overrides/other.txt");
    assert_eq!(deduped[1].name, "overrides/dup.txt");
    assert_eq!(deduped[1].data, b"second");
}

#[test]
fn archive_round_trip_preserves_structure() {
    let metadata = b"{\"formatVersion\":1,\"name\":\"pack\"}".to_vec();
    let bytes = create(metadata.clone(), Some(extras_tree()), Some(overrides_tree()))
        .expect("in-memory archive");
    let mut archive =
        zip::ZipArchive::new(std::io::Cursor::new(bytes)).expect("readable container");
    let names: Vec<String> = archive.file_names().map(|s| s.to_string()).collect();
    // Forward-slash separators only, whatever the host convention.
    assert!(names.iter().all(|n| !n.contains('\\')));
    assert!(names.contains(&"modrinth.index.json".to_string()));
    assert!(names.contains(&"overrides/x.png".to_string()));
    assert!(names.contains(&"overrides/options.txt".to_string()));
    // A nested override keeps its relative structure under the prefix.
    assert!(names.contains(&"overrides/configs/a.txt".to_string()));
    // An empty directory gets an explicit entry.
    assert!(names.contains(&"overrides/configs/empty/".to_string()));
    // The extras subdirectory contributed nothing.
    assert!(names.iter().all(|n| !n.contains("nested")));

    let mut payload = Vec::new();
    archive
        .by_name("modrinth.index.json")
        .expect("metadata entry")
        .read_to_end(&mut payload)
        .expect("metadata bytes");
    assert_eq!(payload, metadata);

    let mut alpha = Vec::new();
    archive
        .by_name("overrides/configs/a.txt")
        .expect("nested entry")
        .read_to_end(&mut alpha)
        .expect("nested bytes");
    assert_eq!(alpha, b"alpha");
}

#[test]
fn colliding_extra_names_last_write_wins() {
    let extras = DirTree {
        files: vec![file("dup.txt", b"first"), file("dup.txt", b"second")],
        dirs: Vec::new(),
    };
    let bytes = create(b"m".to_vec(), Some(extras), None).expect("in-memory archive");
    let mut archive =
        zip::ZipArchive::new(std::io::Cursor::new(bytes)).expect("readable container");
    let dup_count = archive
        .file_names()
        .filter(|n| *n == "overrides/dup.txt")
        .count();
    assert_eq!(dup_count, 1);
    let mut data = Vec::new();
    archive
        .by_name("overrides/dup.txt")
        .expect("surviving entry")
        .read_to_end(&mut data)
        .expect("surviving bytes");
    assert_eq!(data, b"second");
}

#[test]
fn metadata_only_archive() {
    let bytes = create(b"{}".to_vec(), None, None).expect("in-memory archive");
    let archive = zip::ZipArchive::new(std::io::Cursor::new(bytes)).expect("readable container");
    let names: Vec<String> = archive.file_names().map(|s| s.to_string()).collect();
    assert_eq!(names, ["modrinth.index.json"]);
}

#[test]
fn oversized_entry_name_is_refused() {
    let extras = DirTree {
        files: vec![file(&"n".repeat(70000), b"data")],
        dirs: Vec::new(),
    };
    assert!(create(b"m".to_vec(), Some(extras), None).is_err());
}
