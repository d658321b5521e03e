use photonyx::cli::CommandKind;

#[test]
fn only_siril_commands_require_siril() {
    let yes = [
        CommandKind::SirilTest,
        CommandKind::MasterBias,
        CommandKind::MasterDark,
        CommandKind::MasterFlat,
        CommandKind::ObservationCalibrate,
        CommandKind::ProjectStack,
        CommandKind::ProjectSample,
    ];
    for k in yes {
        assert!(k.requires_siril(), "{k:?}");
    }
    for k in [CommandKind::Inspect, CommandKind::MasterList, CommandKind::ProfileInit, CommandKind::Tui] {
        assert!(!k.requires_siril(), "{k:?}");
    }
}

#[test]
fn profile_is_required_except_for_standalone_commands() {
    for k in [
        CommandKind::GenerateShellCompletion,
        CommandKind::SelfVersion,
        CommandKind::Inspect,
        CommandKind::ProfileInit,
        CommandKind::ObservationList,
        CommandKind::ProjectList,
    ] {
        assert!(!k.requires_profile(), "{k:?}");
    }
    for k in [CommandKind::MasterBest, CommandKind::ProfileInfo, CommandKind::ProjectStack, CommandKind::ProjectInit] {
        assert!(k.requires_profile(), "{k:?}");
    }
}
