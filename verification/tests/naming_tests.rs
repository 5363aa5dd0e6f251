use universal_converter::naming::{zip_entry_name, zip_entry_names, ZipNameError};
use universal_converter::watermark::{free_gs_name, free_xobject_name, xobject_name_for};

fn strings(v: &[&str]) -> Vec<String> {
    v.iter().map(|s| s.to_string()).collect()
}

#[test]
fn zip_names_are_made_unique() {
    let names = zip_entry_names(&strings(&["/a/x.txt", "/b/x.txt", "/c/x.txt", "/d/y", "/e/y"])).unwrap();
    assert_eq!(names, strings(&["x.txt", "x_2.txt", "x_3.txt", "y", "y_2"]));
}

#[test]
fn zip_name_skips_taken_candidates() {
    assert_eq!(zip_entry_name("a.b.c", &strings(&["a.b.c", "a.b_2.c"])), "a.b_3.c");
    assert_eq!(zip_entry_name(".rc", &strings(&[".rc"])), "_2.rc");
    assert_eq!(zip_entry_name("n", &strings(&[])), "n");
}

#[test]
fn zip_path_without_file_name_is_refused() {
    assert_eq!(
        zip_entry_names(&strings(&["/a/ok.txt", "/b/.."])),
        Err(ZipNameError::NoFileName("/b/..".to_string()))
    );
}

#[test]
fn blend_state_names() {
    assert_eq!(free_gs_name(&strings(&[])), "UCGs0");
    assert_eq!(free_gs_name(&strings(&["UCGs0", "GS1", "UCGs1"])), "UCGs2");
}

#[test]
fn xobject_names() {
    assert_eq!(free_xobject_name(&strings(&["UCWm0", "Im1"])), "UCWm1");
    assert_eq!(xobject_name_for(&strings(&["Im1", "UCWm0"]), &vec![false, true]), "UCWm0");
    assert_eq!(xobject_name_for(&strings(&["Im1"]), &vec![false]), "UCWm0");
}
