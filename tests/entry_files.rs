use syracuse::entry::Entry;

fn strings(v: &[&str]) -> Vec<String> {
    v.iter().map(|s| s.to_string()).collect()
}

#[test]
fn file_stem_gives_name_aliases_and_index_flag() {
    let e = Entry::from_file_stem("MATH-201-·-ANALYSIS-·-AN", "-·-");
    assert_eq!(e.name, "MATH-201");
    assert_eq!(e.aliases, strings(&["ANALYSIS", "AN"]));
    assert!(e.is_indexed());

    let e = Entry::from_file_stem("PHYS-101.noindex", "-·-");
    assert_eq!(e.name, "PHYS-101");
    assert!(e.aliases.is_empty());
    assert!(!e.is_indexed());

    let e = Entry::from_file_stem("A-·--·-B.noindex", "-·-");
    assert_eq!(e.name, "A");
    assert_eq!(e.aliases, strings(&["", "B"]));
    assert!(!e.indexed);

    let e = Entry::from_file_stem(".noindex", "-·-");
    assert_eq!(e.name, "");
    assert!(!e.indexed);
}

#[test]
fn file_names_join_parts_with_separator() {
    let e = Entry::new("MATH-201".to_string(), strings(&["ANALYSIS", "AN"]), true);
    assert_eq!(e.get_filestem("-·-"), "MATH-201-·-ANALYSIS-·-AN");
    assert_eq!(e.get_extension(), ".json");
    assert_eq!(e.get_filename("-·-"), "MATH-201-·-ANALYSIS-·-AN.json");
    let u = Entry::new("PHYS-101".to_string(), vec![], false);
    assert_eq!(u.get_filestem("-·-"), "PHYS-101");
    assert_eq!(u.get_extension(), ".noindex.json");
    assert_eq!(u.get_filename("_"), "PHYS-101.noindex.json");
    let back = Entry::from_file_stem(&(e.get_filestem("-·-")), "-·-");
    assert_eq!((back.name, back.aliases, back.indexed), (e.name.clone(), e.aliases.clone(), true));
}

#[test]
fn known_names_are_recognized() {
    let e = Entry::new("MATH-201".to_string(), strings(&["ANALYSIS"]), true);
    assert!(e.is_new_entry_name_valid("MATH-201"));
    assert!(e.is_new_entry_name_valid("ANALYSIS"));
    assert!(!e.is_new_entry_name_valid("MATH"));
    assert!(!e.is_new_entry_name_valid(""));
}

#[test]
fn empty_separator_cuts_like_split() {
    let e = Entry::from_file_stem("ab", "");
    assert_eq!(e.name, "");
    assert_eq!(e.aliases, strings(&["", "a", "b", ""]));
    assert!(e.indexed);
    let e = Entry::from_file_stem(".noindex", "");
    assert_eq!(e.name, "");
    assert_eq!(e.aliases, strings(&["", ""]));
    assert!(!e.indexed);
}

#[test]
fn name_and_first_alias() {
    let e = Entry::new("MATH-201".to_string(), strings(&["ANALYSIS", "AN"]), true);
    assert_eq!(e.print_name_and_first_alias(), "MATH-201; ANALYSIS");
    let u = Entry::new("PHYS-101".to_string(), vec![], true);
    assert_eq!(u.print_name_and_first_alias(), "PHYS-101");
}
