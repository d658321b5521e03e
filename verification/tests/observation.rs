use photonyx::observation::LeafFolder;

#[test]
fn leaf_folder_names_parse() {
    let raw = LeafFolder::parse("RAW_300_Ha").unwrap();
    assert!(raw.is_raw);
    assert_eq!(raw.exposure, "300");
    assert_eq!(raw.filter, "Ha");
    assert_eq!(raw.sibling_name("300"), "PP_300_Ha");

    let pp = LeafFolder::parse("PP_120_OIII_Narrow").unwrap();
    assert!(!pp.is_raw);
    assert_eq!(pp.exposure, "120");
    assert_eq!(pp.filter, "OIII_Narrow");
    assert_eq!(pp.sibling_name("120"), "RAW_120_OIII_Narrow");

    let frac = LeafFolder::parse("RAW_2.5_L").unwrap();
    assert_eq!(frac.exposure, "2.5");
}

#[test]
fn non_leaf_names_do_not_parse() {
    assert!(LeafFolder::parse("Misc_300_Ha").is_none());
    assert!(LeafFolder::parse("RAW_Ha").is_none());
    assert!(LeafFolder::parse("RAW_300_").is_none());
    assert!(LeafFolder::parse("2025-06-25").is_none());
    assert!(LeafFolder::parse("raw_300_Ha").is_none());
}

#[test]
fn leaf_grammar_edge_cases() {
    assert!(LeafFolder::parse("RAW_2._L").is_none());
    assert!(LeafFolder::parse("RAW_2.5x_L").is_none());
    assert!(LeafFolder::parse("RAW_.5_L").is_none());
    assert!(LeafFolder::parse("RAW_300_Ha\n").is_none());
    assert!(LeafFolder::parse("PP_300").is_none());
    let u = LeafFolder::parse("RAW_300__x").unwrap();
    assert_eq!(u.exposure, "300");
    assert_eq!(u.filter, "_x");
    let arabic = LeafFolder::parse("PP_\u{661}\u{662}_Ha").unwrap();
    assert!(!arabic.is_raw);
    assert_eq!(arabic.exposure, "\u{661}\u{662}");
    let dotted = LeafFolder::parse("RAW_10.25_OIII.x").unwrap();
    assert_eq!(dotted.exposure, "10.25");
    assert_eq!(dotted.filter, "OIII.x");
}
