use multi_subset_bam::{ListError, Subsetter};

fn strings(values: &[&str]) -> Vec<String> {
    values.iter().map(|v| v.to_string()).collect()
}

#[test]
fn list_files_name_their_outputs() {
    let mut s = Subsetter::new();
    let prefix = "testData/output/two_clusters_";
    assert_eq!(s.read_simple_list("testData/barcodes.txt", strings(&["AAAC", "GGTT"]), prefix), Ok(0));
    assert_eq!(s.read_simple_list("testData/barcodes2.txt", strings(&["CCCA"]), prefix), Ok(1));
    assert_eq!(
        s.ofile_names(),
        &vec![
            "testData/output/two_clusters_barcodes.bam".to_string(),
            "testData/output/two_clusters_barcodes2.bam".to_string(),
        ]
    );
    assert_eq!(s.lookup("GGTT"), Some(0));
    assert_eq!(s.lookup("CCCA"), Some(1));
}

#[test]
fn stem_drops_only_the_last_extension() {
    let mut s = Subsetter::new();
    assert_eq!(s.read_simple_list("lists/cells.tar.txt", Vec::new(), "out_"), Ok(0));
    assert_eq!(s.ofile_names(), &vec!["out_cells.tar.bam".to_string()]);
}

#[test]
fn list_without_file_name_is_refused() {
    let mut s = Subsetter::new();
    assert_eq!(s.read_simple_list("..", strings(&["AAAA"]), "out_"), Err(ListError::NoFileName));
    assert_eq!(s.group_count(), 0);
    assert_eq!(s.lookup("AAAA"), None);
    assert!(s.ofile_names().is_empty());
}

#[test]
fn group_ids_follow_registration_order() {
    let mut s = Subsetter::new();
    for k in 0..5usize {
        assert_eq!(s.register(vec![format!("V{}", k)], format!("g{}.bam", k)), k);
    }
    assert_eq!(s.group_count(), 5);
    assert_eq!(s.lookup("V3"), Some(3));
    assert_eq!(s.lookup("V5"), None);
}

#[test]
fn lookup_is_exact() {
    let mut s = Subsetter::new();
    s.register(strings(&["AAAC-1"]), "a.bam".to_string());
    assert_eq!(s.lookup("AAAC-1"), Some(0));
    assert_eq!(s.lookup("AAAC"), None);
    assert_eq!(s.lookup("aaac-1"), None);
}

#[test]
fn two_runs_of_the_same_registrations_agree() {
    let build = || {
        let mut s = Subsetter::new();
        s.read_simple_list("a/barcodes.txt", strings(&["AAAA", "X"]), "out_").unwrap();
        s.read_simple_list("a/empty.txt", Vec::new(), "out_").unwrap();
        s.read_simple_list("a/barcodes2.txt", strings(&["CCCC", "X"]), "out_").unwrap();
        s
    };
    let (a, b) = (build(), build());
    assert_eq!(a.ofile_names(), b.ofile_names());
    assert_eq!(a.group_count(), 3);
    for v in ["AAAA", "CCCC", "X", "Y", ""] {
        assert_eq!(a.lookup(v), b.lookup(v));
    }
    assert_eq!(a.lookup("X"), Some(2));
    assert_eq!(a.lookup("AAAA"), Some(0));
}
