use ferium::pipeline::DownloadRecord;
use ferium::reconcile::assign_output_paths;
use ferium::reconcile::is_jar_name;
use ferium::reconcile::manual_installs;
use ferium::reconcile::reconcile;
use ferium::reconcile::supports_manual_installs;
use ferium::reconcile::upgrade_failed;
use ferium::reconcile::upgrade_plan;
use ferium::reconcile::ModLoader;
use ferium::reconcile::UserEntry;

fn rec(file: &str) -> DownloadRecord {
    DownloadRecord {
        name: file.to_string(),
        filename: file.to_string(),
        url: format!("https://example.invalid/{file}"),
        output: String::new(),
    }
}

fn strings(names: &[&str]) -> Vec<String> {
    names.iter().map(|n| n.to_string()).collect()
}

#[test]
fn jar_extension_matching() {
    assert!(is_jar_name("sodium.jar"));
    assert!(is_jar_name("SODIUM.JAR"));
    assert!(is_jar_name("mixed.Jar"));
    assert!(is_jar_name("a.b.jar"));
    assert!(!is_jar_name(".jar"));
    assert!(!is_jar_name("jar"));
    assert!(!is_jar_name("archive.jarx"));
    assert!(!is_jar_name("notes.txt"));
    assert!(!is_jar_name(""));
}

#[test]
fn loader_manual_install_support() {
    assert!(supports_manual_installs(ModLoader::Fabric));
    assert!(supports_manual_installs(ModLoader::Forge));
    assert!(supports_manual_installs(ModLoader::NeoForge));
    assert!(!supports_manual_installs(ModLoader::Quilt));
}

fn user_entries() -> Vec<UserEntry> {
    vec![
        UserEntry {
            name: "custom.jar".to_string(),
            is_file: true,
        },
        UserEntry {
            name: "README.txt".to_string(),
            is_file: true,
        },
        UserEntry {
            name: "backup.jar".to_string(),
            is_file: false,
        },
        UserEntry {
            name: "OLD.JAR".to_string(),
            is_file: true,
        },
    ]
}

#[test]
fn manual_installs_filter_jars() {
    let installs = manual_installs(ModLoader::Fabric, user_entries());
    assert_eq!(installs, strings(&["custom.jar", "OLD.JAR"]));
}

#[test]
fn manual_installs_empty_without_support() {
    let installs = manual_installs(ModLoader::Quilt, user_entries());
    assert!(installs.is_empty());
}

#[test]
fn reconcile_splits_disk_state() {
    let downloads = vec![rec("a.jar"), rec("b.jar")];
    let disk = strings(&["b.jar", "stale.jar", "user.jar"]);
    let installs = strings(&["user.jar"]);
    let plan = reconcile(downloads, disk, &installs);
    let pending: Vec<&str> = plan.pending.iter().map(|d| d.filename.as_str()).collect();
    assert_eq!(pending, ["a.jar"]);
    assert_eq!(plan.keep, strings(&["b.jar", "user.jar"]));
    assert_eq!(plan.remove, strings(&["stale.jar"]));
}

#[test]
fn reconcile_again_after_apply_is_noop() {
    let downloads = vec![rec("a.jar"), rec("b.jar")];
    let disk = strings(&["b.jar", "stale.jar", "user.jar"]);
    let installs = strings(&["user.jar"]);
    let plan = reconcile(downloads, disk, &installs);
    // The directory after the plan runs: kept files plus fresh downloads.
    let mut post = plan.keep.clone();
    post.extend(plan.pending.iter().map(|d| d.filename.clone()));
    let downloads = vec![rec("a.jar"), rec("b.jar")];
    let second = reconcile(downloads, post.clone(), &installs);
    assert!(second.pending.is_empty());
    assert!(second.remove.is_empty());
    assert_eq!(second.keep, post);
}

#[test]
fn output_paths_under_install_dir() {
    let records = vec![rec("a.jar"), rec("b.jar")];
    let assigned = assign_output_paths(records, "mods");
    assert_eq!(assigned[0].output, "mods/a.jar");
    assert_eq!(assigned[1].output, "mods/b.jar");
    assert_eq!(assigned[0].filename, "a.jar");
}

#[test]
fn upgrade_plan_composes() {
    let downloads = vec![rec("a.jar"), rec("b.jar")];
    let disk = strings(&["b.jar", "stale.jar", "custom.jar"]);
    let plan = upgrade_plan(ModLoader::Fabric, user_entries(), downloads, disk, "mods");
    assert_eq!(plan.installs, strings(&["custom.jar", "OLD.JAR"]));
    assert_eq!(plan.remove, strings(&["stale.jar"]));
    assert_eq!(plan.keep, strings(&["b.jar", "custom.jar"]));
    assert_eq!(plan.pending.len(), 1);
    assert_eq!(plan.pending[0].output, "mods/a.jar");
    assert!(!plan.up_to_date);
}

#[test]
fn upgrade_plan_detects_up_to_date() {
    let downloads = vec![rec("a.jar")];
    let disk = strings(&["a.jar"]);
    let plan = upgrade_plan(ModLoader::Quilt, user_entries(), downloads, disk, "mods");
    assert!(plan.installs.is_empty());
    assert!(plan.pending.is_empty());
    assert!(plan.remove.is_empty());
    assert!(plan.up_to_date);
}

#[test]
fn quilt_user_files_never_removed() {
    // The manual subfolder's files are not part of the top-level listing, so
    // even without manual-install support nothing of theirs is removed.
    let downloads = vec![rec("a.jar")];
    let disk = strings(&["a.jar", "stale.jar"]);
    let plan = upgrade_plan(ModLoader::Quilt, user_entries(), downloads, disk, "mods");
    assert_eq!(plan.remove, strings(&["stale.jar"]));
    assert!(!plan.remove.contains(&"custom.jar".to_string()));
}

#[test]
fn exit_decision() {
    assert!(!upgrade_failed(false, 0));
    assert!(upgrade_failed(true, 0));
    assert!(upgrade_failed(false, 2));
    assert!(upgrade_failed(true, 1));
}
