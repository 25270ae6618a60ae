//! Mining calls that come in pairs.

use autoreview::rule_factory::mine_from_code::{
    call_sites_in_file, consistency_for_pair, mine_call_pair_conventions, scans_extension, skips_directory, SourceFile, WINDOW_LINES,
};

fn write(files: &mut Vec<SourceFile>, path: &str, content: &str) {
    files.push(SourceFile { path: path.to_string(), content: content.to_string() });
}

#[test]
fn call_sites_in_file_finds_method_calls() {
    let sites = call_sites_in_file("func f() {\n\tmu.Lock()\n\tdefer mu.Unlock()\n}\n");
    let names: Vec<&str> = sites.iter().map(|s| s.name.as_str()).collect();
    assert_eq!(names, vec!["Lock", "Unlock"]);
}

#[test]
fn mines_a_strong_lock_unlock_convention() {
    let mut files: Vec<SourceFile> = Vec::new();
    for i in 0..5 {
        write(&mut files, &format!("f{i}.go"),
            &format!("package main\n\nfunc f{i}() {{\n\tmu.Lock()\n\tdoWork()\n\tmu.Unlock()\n}}\n"),
        );
    }
    let conventions = mine_call_pair_conventions(&files, 3, 900_000);
    let lock_unlock = conventions.iter().find(|c| c.call_a == "Lock" && c.call_b == "Unlock").expect("expected a Lock -> Unlock convention");
    assert_eq!(lock_unlock.occurrences_of_a, 5);
    assert_eq!(lock_unlock.co_occurrences, 5);
    assert!(lock_unlock.holds(1_000_000));
}

#[test]
fn an_inconsistent_pairing_is_not_reported() {
    let mut files: Vec<SourceFile> = Vec::new();
    write(&mut files, "f0.go", "package main\n\nfunc f0() {\n\tmu.Lock()\n\tmu.Unlock()\n}\n");
    write(&mut files, "f1.go", "package main\n\nfunc f1() {\n\tmu.Lock()\n\tmu.Unlock()\n}\n");
    write(&mut files, "f2.go", "package main\n\nfunc f2() {\n\tmu.Lock()\n\tdoWork()\n}\n");
    write(&mut files, "f3.go", "package main\n\nfunc f3() {\n\tmu.Lock()\n\tdoWork()\n}\n");

    let conventions = mine_call_pair_conventions(&files, 3, 900_000);
    assert!(!conventions.iter().any(|c| c.call_a == "Lock" && c.call_b == "Unlock"), "got: {conventions:#?}");
}

#[test]
fn below_min_occurrences_is_not_reported_even_if_perfectly_consistent() {
    let mut files: Vec<SourceFile> = Vec::new();
    write(&mut files, "f0.go", "package main\n\nfunc f0() {\n\tmu.Lock()\n\tmu.Unlock()\n}\n");
    let conventions = mine_call_pair_conventions(&files, 3, 900_000);
    assert!(conventions.is_empty(), "1 occurrence should be below the min_occurrences=3 floor, got: {conventions:#?}");
}

#[test]
fn a_partner_outside_the_line_window_does_not_count() {
    let mut files: Vec<SourceFile> = Vec::new();
    let mut body = String::from("package main\n\nfunc f() {\n\tmu.Lock()\n");
    for i in 0..(WINDOW_LINES + 5) {
        body.push_str(&format!("\t_ = {i}\n"));
    }
    body.push_str("\tmu.Unlock()\n}\n");
    write(&mut files, "f0.go", &body);
    write(&mut files, "f1.go", "package main\n\nfunc f1() {\n\tmu.Lock()\n\tmu.Unlock()\n}\n");
    write(&mut files, "f2.go", "package main\n\nfunc f2() {\n\tmu.Lock()\n\tmu.Unlock()\n}\n");
    write(&mut files, "f3.go", "package main\n\nfunc f3() {\n\tmu.Lock()\n\tmu.Unlock()\n}\n");

    let conventions = mine_call_pair_conventions(&files, 4, 900_000);
    assert!(!conventions.iter().any(|c| c.call_a == "Lock" && c.call_b == "Unlock"), "got: {conventions:#?}");
}

#[test]
fn skips_vendor_and_git_directories() {
    for path in ["vendor/pkg/f.go", ".git/f.go"] {
        let dir = path.split('/').next().unwrap();
        assert!(skips_directory(dir), "got: {dir}");
    }
}

#[test]
fn scans_java_and_kotlin_files_too_not_just_go() {
    let files: Vec<&str> = ["A.java"].into_iter().filter(|path| scans_extension(path.rsplit('.').next().unwrap())).collect();
    assert_eq!(files.len(), 1, "got: {files:#?}");
}

#[test]
fn consistency_for_pair_matches_mine_call_pair_conventions_for_a_real_convention() {
    let mut files: Vec<SourceFile> = Vec::new();
    for i in 0..5 {
        write(&mut files, &format!("f{i}.go"),
            &format!("package main\n\nfunc f{i}() {{\n\tmu.Lock()\n\tdoWork()\n\tmu.Unlock()\n}}\n"),
        );
    }
    let result = consistency_for_pair(&files, "Lock", "Unlock", 3).unwrap();
    assert_eq!(result.occurrences_of_a, 5);
    assert_eq!(result.co_occurrences, 5);
    assert!(result.holds(1_000_000));
    assert!(!result.example_location.is_empty());
}

#[test]
fn consistency_for_pair_returns_none_below_min_occurrences() {
    let mut files: Vec<SourceFile> = Vec::new();
    write(&mut files, "f0.go", "package main\n\nfunc f0() {\n\tmu.Lock()\n\tmu.Unlock()\n}\n");
    assert!(consistency_for_pair(&files, "Lock", "Unlock", 3).is_none());
}

#[test]
fn consistency_for_pair_reports_a_real_fabricated_pairs_low_consistency() {
    let mut files: Vec<SourceFile> = Vec::new();
    for i in 0..5 {
        write(&mut files, &format!("f{i}.go"), &format!("package main\n\nfunc f{i}() {{\n\tmu.Lock()\n\tdoWork()\n}}\n"));
    }
    let result = consistency_for_pair(&files, "Lock", "SomethingThatNeverHappens", 3).unwrap();
    assert_eq!(result.co_occurrences, 0);
    assert!(!result.holds(1));
}

#[test]
fn a_call_that_never_occurs_has_no_consistency() {
    let mut files: Vec<SourceFile> = Vec::new();
    write(&mut files, "f0.go", "package main\n\nfunc f0() {\n\tmu.Lock()\n\tmu.Unlock()\n}\n");
    assert!(consistency_for_pair(&files, "Open", "Close", 0).is_none());
    let found = consistency_for_pair(&files, "Lock", "Unlock", 0).unwrap();
    assert_eq!((found.occurrences_of_a, found.co_occurrences), (1, 1));
}
