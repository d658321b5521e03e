use photonyx::table::{AsciiFormat, BinFormat, BinType, VarKind, parse_tdim};

#[test]
fn parse_fixed_bin_formats() {
    assert_eq!(BinFormat::parse("J").unwrap(), BinFormat::Fixed { ty: BinType::I32, count: 1 });
    assert_eq!(BinFormat::parse("16A").unwrap(), BinFormat::Fixed { ty: BinType::Char, count: 16 });
    assert_eq!(BinFormat::parse("3D").unwrap().field_bytes(), 24);
    assert_eq!(BinFormat::parse("17X").unwrap().field_bytes(), 3);
}

#[test]
fn parse_variable_length_descriptors() {
    assert_eq!(
        BinFormat::parse("1PJ(52)").unwrap(),
        BinFormat::Var { kind: VarKind::P, elem: BinType::I32, max: Some(52) }
    );
    assert_eq!(BinFormat::parse("PB").unwrap().field_bytes(), 8);
    assert_eq!(BinFormat::parse("QD").unwrap().field_bytes(), 16);
}

#[test]
fn parse_ascii_formats() {
    assert_eq!(AsciiFormat::parse("A8").unwrap(), AsciiFormat::Char(8));
    assert_eq!(AsciiFormat::parse("I10").unwrap(), AsciiFormat::Int(10));
    assert_eq!(AsciiFormat::parse("F12.4").unwrap(), AsciiFormat::Fixed { width: 12, decimals: 4 });
    assert_eq!(AsciiFormat::parse("E15.7").unwrap(), AsciiFormat::Exp { width: 15, decimals: 7 });
}

#[test]
fn tdim_parses_axis_list() {
    assert_eq!(parse_tdim("(4,2)"), Some(vec![4, 2]));
    assert_eq!(parse_tdim(" (10, 20, 3) "), Some(vec![10, 20, 3]));
    assert_eq!(parse_tdim("garbage"), None);
}

#[test]
fn unsupported_formats_are_errors_not_panics() {
    assert!(BinFormat::parse("").is_err());
    assert!(BinFormat::parse("3Z").is_err());
    assert!(BinFormat::parse("P").is_err());
    assert!(AsciiFormat::parse("").is_err());
    assert!(AsciiFormat::parse("Z8").is_err());
    assert!(AsciiFormat::parse("Ax").is_err());
    assert_eq!(parse_tdim("()"), None);
    assert_eq!(parse_tdim("(1,,2)"), None);
}

#[test]
fn tform_details() {
    assert_eq!(BinFormat::parse(" 2QE ").unwrap(), BinFormat::Var { kind: VarKind::Q, elem: BinType::F32, max: None });
    assert_eq!(BinFormat::parse("PI( 7 )").unwrap(), BinFormat::Var { kind: VarKind::P, elem: BinType::I16, max: Some(7) });
    assert_eq!(BinFormat::parse("2M").unwrap().field_bytes(), 32);
    assert_eq!(BinFormat::parse("8X").unwrap().field_bytes(), 1);
    assert_eq!(AsciiFormat::parse("D25.17").unwrap(), AsciiFormat::Exp { width: 25, decimals: 17 });
    assert_eq!(AsciiFormat::parse("F8.x").unwrap(), AsciiFormat::Fixed { width: 8, decimals: 0 });
    assert_eq!(AsciiFormat::parse("I6").unwrap().width(), 6);
    assert_eq!(VarKind::P.descriptor_bytes(), 8);
    assert_eq!(BinType::from_code('K'), Some(BinType::I64));
    assert_eq!(BinType::from_code('q'), None);
}
