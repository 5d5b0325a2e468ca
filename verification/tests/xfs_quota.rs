use ncdu_core::xfs_quota::{
    parse_xfs_quota_report, project_id_in, quota_from_report, report_command, try_quota_total,
    QuotaAction, QuotaEvent, XFS_SUPER_MAGIC,
};

#[test]
fn parse_xfs_quota_report_picks_matching_row() {
    let sample = "\
Project quota on /mnt/data (/dev/sda1)
                               Blocks
Project ID       Used       Soft       Hard    Warn/Grace
---------- --------------------------------------------------
#41               1024          0          0     00 [--------]
#42            1234560          0          0     00 [--------]
#43                  0          0          0     00 [--------]
";
    assert_eq!(parse_xfs_quota_report(sample, 42), Some(1234560 * 1024));
    assert_eq!(parse_xfs_quota_report(sample, 41), Some(1024 * 1024));
    assert_eq!(parse_xfs_quota_report(sample, 99), None);
}

#[test]
fn parse_handles_empty_input() {
    assert_eq!(parse_xfs_quota_report("", 1), None);
    assert_eq!(parse_xfs_quota_report("garbage no rows", 1), None);
}

#[test]
fn edges_of_a_report() {
    // White space of any kind parts words, and the last line may lack a break.
    assert_eq!(parse_xfs_quota_report("\u{a0}#7\u{2003}+3\r\nx", 7), Some(3 * 1024));
    assert_eq!(parse_xfs_quota_report("#7 3", 7), Some(3 * 1024));
    // A line without words is skipped like any other that does not match.
    assert_eq!(parse_xfs_quota_report("a b\n\n#7 3\n", 7), Some(3 * 1024));
    assert_eq!(
        parse_xfs_quota_report(
            "Project quota on /mnt/data (/dev/sda1)\n\n#42 10 0 0 00 [--------]\n",
            42
        ),
        Some(10240)
    );
    assert_eq!(parse_xfs_quota_report("\n \n\n", 7), None);
    // The first row for the project counts, readable or not.
    assert_eq!(parse_xfs_quota_report("#7\n#7 3\n", 7), None);
    assert_eq!(parse_xfs_quota_report("#7 3k\n#7 3\n", 7), None);
    assert_eq!(parse_xfs_quota_report("#7 -3\n", 7), None);
    assert_eq!(parse_xfs_quota_report("#7 +\n", 7), None);
    assert_eq!(parse_xfs_quota_report("#07 1\n#7 2\n", 7), Some(2048));
    // Totals stop at the largest value; a number beyond it is not read.
    assert_eq!(parse_xfs_quota_report("#7 18446744073709551615", 7), Some(u64::MAX));
    assert_eq!(parse_xfs_quota_report("#7 18446744073709551616", 7), None);
    assert_eq!(parse_xfs_quota_report("#4294967295 1", u32::MAX), Some(1024));
}

#[test]
fn a_failed_command_reports_nothing() {
    assert_eq!(quota_from_report(true, "#7 2", 7), Some(2048));
    assert_eq!(quota_from_report(false, "#7 2", 7), None);
    assert_eq!(report_command(42), "report -np 42");
    assert_eq!(XFS_SUPER_MAGIC, 0x58465342);
}

#[test]
fn project_table() {
    let table = "\
# id:path
 10 : /srv/a   # a comment
nonsense
x:/srv/b
4294967296:/srv/b
+11:/srv/b:c
12:/srv/b
13:/srv/b
";
    assert_eq!(project_id_in(table, "/srv/a"), Some(10));
    assert_eq!(project_id_in(table, "/srv/b"), Some(12));
    assert_eq!(project_id_in(table, "/srv/b:c"), Some(11));
    assert_eq!(project_id_in(table, "/srv"), None);
    assert_eq!(project_id_in("", "/srv"), None);
    assert_eq!(project_id_in("5:/x\r\n6:/y", "/y"), Some(6));
}

#[test]
fn the_fast_path_step_by_step() {
    let projects = || Some("7:/data\n42:/srv\n".to_string());
    let report = || "#42  12 0 0\n".to_string();
    assert!(matches!(try_quota_total(QuotaEvent::Filesystem(0xef53)), QuotaAction::Done(None)));
    assert!(matches!(
        try_quota_total(QuotaEvent::Filesystem(XFS_SUPER_MAGIC)),
        QuotaAction::ReadProjects
    ));
    assert!(matches!(
        try_quota_total(QuotaEvent::Projects(None, "/srv".to_string())),
        QuotaAction::Done(None)
    ));
    assert!(matches!(
        try_quota_total(QuotaEvent::Projects(projects(), "/home".to_string())),
        QuotaAction::Done(None)
    ));
    assert!(matches!(
        try_quota_total(QuotaEvent::Projects(projects(), "/srv".to_string())),
        QuotaAction::RunReport(42, c) if c == "report -np 42"
    ));
    assert!(matches!(try_quota_total(QuotaEvent::Report(42, None)), QuotaAction::Done(None)));
    assert!(matches!(
        try_quota_total(QuotaEvent::Report(42, Some((false, report())))),
        QuotaAction::Done(None)
    ));
    assert!(matches!(
        try_quota_total(QuotaEvent::Report(42, Some((true, report())))),
        QuotaAction::Done(Some(12288))
    ));
}
