use unique_rename::name::canonical;
use unique_rename::path::{extension, file_stem, parent};
use unique_rename::rename::{destination, on_file_found, settle, Rename};

const NAME: &str = "936da01f-9abd-4d9d-80c7-02af85c822a8";

fn expected(path: &str, name: &str) -> String {
    let path = std::path::Path::new(path);
    let dir = path.parent().unwrap_or(std::path::Path::new(""));
    let ext = path.extension().map(|e| e.to_str().unwrap()).unwrap_or("");
    dir.join(name).with_extension(ext).to_str().unwrap().to_string()
}

#[test]
fn destination_keeps_directory_and_extension() {
    assert_eq!(
        destination("dir/photo.jpg", NAME),
        "dir/936da01f-9abd-4d9d-80c7-02af85c822a8.jpg"
    );
}

#[test]
fn destination_of_a_bare_file_name() {
    assert_eq!(destination("photo.jpg", NAME), "936da01f-9abd-4d9d-80c7-02af85c822a8.jpg");
}

#[test]
fn destination_without_extension() {
    assert_eq!(destination("README", NAME), "936da01f-9abd-4d9d-80c7-02af85c822a8");
    assert_eq!(destination("dir/README", NAME), "dir/936da01f-9abd-4d9d-80c7-02af85c822a8");
}

#[test]
fn destination_keeps_the_case_of_the_extension() {
    assert_eq!(destination("a/B.JpG", NAME), "a/936da01f-9abd-4d9d-80c7-02af85c822a8.JpG");
}

#[test]
fn destination_keeps_the_last_extension_only() {
    assert_eq!(
        destination("a/b.tar.gz", NAME),
        "a/936da01f-9abd-4d9d-80c7-02af85c822a8.gz"
    );
}

#[test]
fn destination_of_hidden_file_has_no_extension() {
    assert_eq!(destination("a/.bashrc", NAME), "a/936da01f-9abd-4d9d-80c7-02af85c822a8");
}

#[test]
fn destination_in_the_root_and_in_the_current_directory() {
    assert_eq!(destination("/x.txt", NAME), "/936da01f-9abd-4d9d-80c7-02af85c822a8.txt");
    assert_eq!(destination("./x.txt", NAME), "./936da01f-9abd-4d9d-80c7-02af85c822a8.txt");
}

#[test]
fn destination_agrees_with_the_standard_library() {
    let paths = [
        "", "/", ".", "..", "a", "a.b", "a/b.c", "a//b.c", "a/./b.c", "/a.b", "./a.b", "a/b.c/",
        "a/..", "a.d/b", ".a", "a.", "a/b.c.d", "x y/z w.e f", "/tmp/x/y.z//", "././a.txt",
    ];
    for path in paths {
        for name in [NAME, "n", "n.m", ".n", "n/m", "/n", ""] {
            assert_eq!(destination(path, name), expected(path, name), "{:?} {:?}", path, name);
        }
    }
}

#[test]
fn planned_rename_starts_at_the_path() {
    let plan = on_file_found("dir/photo.jpg");
    assert_eq!(plan.from, "dir/photo.jpg");
}

#[test]
fn planned_rename_stays_in_the_directory_with_the_extension() {
    for path in ["dir/photo.jpg", "photo.jpg", "/a/b/c.tar.gz", "./x", "README", "a//b.c", ".rc"] {
        let plan = on_file_found(path);
        assert_eq!(parent(&plan.to), Some(parent(path).unwrap_or("")), "{:?}", path);
        assert_eq!(extension(&plan.to).unwrap_or(""), extension(path).unwrap_or(""), "{:?}", path);
        let stem = file_stem(&plan.to).unwrap();
        assert!(canonical(stem), "{:?}", plan.to);
        assert_eq!(plan.to, destination(path, stem));
        assert_eq!(plan.to, expected(path, stem));
    }
}

#[test]
fn planned_rename_of_a_file_without_extension_is_a_bare_name() {
    let plan = on_file_found("README");
    assert_eq!(plan.to.len(), 36);
    assert!(canonical(&plan.to));
    assert_eq!(extension(&plan.to), None);
}

#[test]
fn two_plans_for_one_file_differ() {
    let first = on_file_found("dir/photo.jpg");
    let second = on_file_found("dir/photo.jpg");
    assert_ne!(first.to, second.to);
}

fn plan() -> Rename {
    Rename { from: "a/b.txt".to_string(), to: format!("a/{}.txt", NAME) }
}

#[test]
fn settle_goes_ahead_on_yes() {
    for answer in ["y", "Y", "yes", "YES", "Yes"] {
        let go = settle(plan(), true, answer).unwrap();
        assert_eq!(go.from, "a/b.txt");
        assert_eq!(go.to, "a/936da01f-9abd-4d9d-80c7-02af85c822a8.txt");
    }
}

#[test]
fn settle_keeps_the_file_on_no() {
    assert!(settle(plan(), true, "no").is_none());
}

#[test]
fn settle_keeps_the_file_on_any_other_answer() {
    for answer in ["", "n", "maybe", "yes!", "ye"] {
        assert!(settle(plan(), true, answer).is_none(), "{:?}", answer);
    }
}

#[test]
fn settle_goes_ahead_without_asking() {
    for answer in ["", "no", "yes"] {
        let go = settle(plan(), false, answer).unwrap();
        assert_eq!(go.from, "a/b.txt");
        assert_eq!(go.to, "a/936da01f-9abd-4d9d-80c7-02af85c822a8.txt");
    }
}

#[test]
fn different_names_lead_to_different_places() {
    let other = "936da01f-9abd-4d9d-80c7-02af85c822a9";
    for path in ["dir/photo.jpg", "README", "/a.b", "./x", "a//b.c/", ""] {
        assert_ne!(destination(path, NAME), destination(path, other), "{:?}", path);
    }
}
