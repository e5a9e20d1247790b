use idm_rs::filename::{
    collision_rename, is_taken, name_from_content_disposition, name_from_url, resolve,
};

fn names(list: &[&str]) -> Vec<String> {
    list.iter().map(|s| s.to_string()).collect()
}

#[test]
fn rename_inserts_suffix_before_first_dot() {
    assert_eq!(collision_rename("archive.tar.gz"), "archive_new.tar.gz");
    assert_eq!(collision_rename("report.pdf"), "report_new.pdf");
    assert_eq!(collision_rename("notes"), "notes_new");
    assert_eq!(collision_rename(".bashrc"), "_new.bashrc");
    assert_eq!(collision_rename(""), "_new");
    assert_eq!(collision_rename("trailing."), "trailing_new.");
    assert_eq!(collision_rename("été.tar.gz"), "été_new.tar.gz");
}

#[test]
fn existing_report_is_not_overwritten() {
    assert_eq!(resolve("report.pdf", &names(&["report.pdf"])), "report_new.pdf");
}

#[test]
fn free_name_is_kept() {
    assert_eq!(resolve("report.pdf", &names(&[])), "report.pdf");
    assert_eq!(resolve("report.pdf", &names(&["other.pdf", "report_new.pdf"])), "report.pdf");
}

#[test]
fn renaming_repeats_until_free() {
    let existing = names(&["a.tar.gz", "a_new.tar.gz", "a_new_new.tar.gz", "b"]);
    assert_eq!(resolve("a.tar.gz", &existing), "a_new_new_new.tar.gz");
    let existing = names(&["data", "data_new"]);
    assert_eq!(resolve("data", &existing), "data_new_new");
}

#[test]
fn resolved_name_is_never_taken() {
    let existing = names(&["x.bin", "x_new.bin", "y", "x_new_new_new.bin", ""]);
    for hint in ["x.bin", "y", "", "x_new.bin", "z.bin"] {
        let name = resolve(hint, &existing);
        assert!(!existing.contains(&name));
        assert!(!is_taken(&existing, &name));
    }
    assert!(is_taken(&existing, &"y".to_string()));
}

#[test]
fn name_in_content_disposition() {
    assert_eq!(name_from_content_disposition("attachment; filename=\"a b.txt\""), "a b.txt");
    assert_eq!(name_from_content_disposition("attachment; filename=plain.bin"), "plain.bin");
    assert_eq!(name_from_content_disposition("attachment; filename='q.txt'"), "q.txt");
    assert_eq!(name_from_content_disposition("attachment; filename=\"it's.txt\""), "it's.txt");
    assert_eq!(name_from_content_disposition("a=b=c.txt"), "c.txt");
    assert_eq!(name_from_content_disposition("inline"), "inline");
    assert_eq!(name_from_content_disposition("filename=\"\""), "");
    assert_eq!(name_from_content_disposition("filename="), "");
    assert_eq!(name_from_content_disposition(""), "");
}

#[test]
fn name_in_url() {
    assert_eq!(name_from_url("http://example.com/files/data.bin"), "data.bin");
    assert_eq!(name_from_url("http://example.com/files/data.bin?token=a/b"), "data.bin");
    assert_eq!(name_from_url("http://example.com/files/data.bin?a=1?b=2"), "data.bin");
    assert_eq!(name_from_url("http://example.com/"), "");
    assert_eq!(name_from_url("http://example.com/dir/?q"), "");
    assert_eq!(name_from_url("plain"), "plain");
}
