use mlocate::cli::{ColorMode, SearchCli};
use mlocate::crawl::{after_dir_identity, after_link_target, after_resolve, first_step, is_pruned, EntryKind, WalkAction, WalkNeed};
use mlocate::cron::{launchd_plist, systemd_service, systemd_timer};
use mlocate::output::human::{format_relative_time, format_size_color, relative_time_at, time_color_at, Tone};
use mlocate::output::mode::{color_enabled, exit_status, has_criteria, output_mode, OutputMode};
use mlocate::update::{build_plan, lock_path, paths_or_default, BuildPlan};

fn cli() -> SearchCli {
    SearchCli {
        patterns: Vec::new(),
        ignore_case: false,
        basename: false,
        regex: false,
        existing: false,
        limit: None,
        count: false,
        null: false,
        size: None,
        modified: None,
        mime_type: None,
        gnu: false,
        stats: false,
        database: None,
        table: false,
        json: false,
        plain: false,
        icons: false,
        color: ColorMode::Auto,
        verbose: false,
        generate_completions: None,
        help: false,
        version: false,
        follow: false,
        all: false,
        wholename: false,
        nofollow: false,
        h_flag: false,
        max_database_age: None,
        regextype: None,
        require_visibility: false,
    }
}

#[test]
fn relative_times() {
    assert_eq!(relative_time_at(100, 90), "in the future");
    assert_eq!(relative_time_at(100, 159), "59 seconds ago");
    assert_eq!(relative_time_at(0, 3599), "59 minutes ago");
    assert_eq!(relative_time_at(0, 7200), "2 hours ago");
    assert_eq!(relative_time_at(0, 3 * 86400), "3 days ago");
    assert_eq!(relative_time_at(0, 15 * 86400), "2 weeks ago");
    assert_eq!(relative_time_at(0, 90 * 86400), "3 months ago");
    assert_eq!(relative_time_at(i64::MIN, i64::MAX), "7116799411153 months ago");
    assert!(format_relative_time(i64::MAX).contains("future"));
}

#[test]
fn tones() {
    assert_eq!(format_size_color(1023), Tone::Gray);
    assert_eq!(format_size_color(1024), Tone::Green);
    assert_eq!(format_size_color(5 * 1024 * 1024), Tone::Yellow);
    assert_eq!(format_size_color(200 * 1024 * 1024), Tone::Red);
    assert_eq!(format_size_color(2 * 1024 * 1024 * 1024), Tone::BrightRed);
    assert_eq!(time_color_at(10, 0), Tone::Magenta);
    assert_eq!(time_color_at(0, 10), Tone::BrightGreen);
    assert_eq!(time_color_at(0, 7200), Tone::Green);
    assert_eq!(time_color_at(0, 2 * 86400), Tone::Yellow);
    assert_eq!(time_color_at(0, 10 * 86400), Tone::White);
    assert_eq!(time_color_at(0, 40 * 86400), Tone::Gray);
}

#[test]
fn pruning_is_by_path_component() {
    let prunes = vec!["/proc".to_string(), "/var/tmp".to_string()];
    assert!(is_pruned("/proc", &prunes));
    assert!(is_pruned("/proc/1/status", &prunes));
    assert!(!is_pruned("/processes", &prunes));
    assert!(is_pruned("/var/tmp/x", &prunes));
    assert!(!is_pruned("/var/log", &prunes));
    assert!(!is_pruned("/proc", &[]));
}

#[test]
fn walk_steps() {
    let prunes = vec!["/skip".to_string()];
    assert!(matches!(first_step(EntryKind::Other, Some("/x"), &prunes), WalkNeed::Decided(WalkAction::Continue)));
    assert!(matches!(first_step(EntryKind::Dir, Some("/skip/a"), &prunes), WalkNeed::Decided(WalkAction::Skip)));
    assert!(matches!(first_step(EntryKind::Dir, Some("/keep"), &prunes), WalkNeed::DirIdentity));
    assert!(matches!(first_step(EntryKind::Symlink, Some("/keep/l"), &prunes), WalkNeed::LinkTarget));
    assert!(matches!(first_step(EntryKind::File, Some("/skip/f"), &prunes), WalkNeed::Decided(WalkAction::Continue)));
    assert!(matches!(first_step(EntryKind::File, None, &prunes), WalkNeed::Decided(WalkAction::Continue)));
    match first_step(EntryKind::File, Some("/keep/f"), &prunes) {
        WalkNeed::Decided(WalkAction::Send(p)) => assert_eq!(p, "/keep/f"),
        other => panic!("unexpected {:?}", other),
    }
    assert!(matches!(after_dir_identity(Some(false)), WalkAction::Skip));
    assert!(matches!(after_dir_identity(Some(true)), WalkAction::Continue));
    assert!(matches!(after_dir_identity(None), WalkAction::Continue));
    assert!(matches!(after_link_target(Some(true)), WalkNeed::Decided(WalkAction::Continue)));
    assert!(matches!(after_link_target(None), WalkNeed::Decided(WalkAction::Continue)));
    assert!(matches!(after_link_target(Some(false)), WalkNeed::Resolve));
    assert!(matches!(after_resolve(Some("/skip/t".to_string()), &prunes), WalkAction::Continue));
    assert!(matches!(after_resolve(None, &prunes), WalkAction::Continue));
    match after_resolve(Some("/keep/t".to_string()), &prunes) {
        WalkAction::Send(p) => assert_eq!(p, "/keep/t"),
        other => panic!("unexpected {:?}", other),
    }
}

#[test]
fn scheduler_units() {
    let service = systemd_service("/home/u");
    assert!(service.starts_with("[Unit]\nDescription=Update mlocate database\n"));
    assert!(service.ends_with("ExecStart=/home/u/bin/mupdatedb --quiet\n"));
    assert!(systemd_timer().contains("OnCalendar=daily\nPersistent=true\n"));
    let plist = launchd_plist("/Users/u");
    assert!(plist.contains("<string>/Users/u/bin/mupdatedb</string>"));
    assert_eq!(plist.matches("/Users/u/").count(), 3);
    assert!(plist.ends_with("</plist>"));
}

#[test]
fn output_modes() {
    let mut c = cli();
    assert_eq!(output_mode(&c, false), OutputMode::Lines);
    assert_eq!(output_mode(&c, true), OutputMode::Table);
    c.plain = true;
    assert_eq!(output_mode(&c, true), OutputMode::Plain);
    c.json = true;
    assert_eq!(output_mode(&c, true), OutputMode::Json);
    c.count = true;
    assert_eq!(output_mode(&c, true), OutputMode::Count);
    assert!(!has_criteria(&cli()));
    let mut d = cli();
    d.size = Some("1KB+".to_string());
    assert!(has_criteria(&d));
    assert!(color_enabled(ColorMode::Always, false));
    assert!(!color_enabled(ColorMode::Never, true));
    assert!(color_enabled(ColorMode::Auto, true));
    assert_eq!(exit_status(true), 0);
    assert_eq!(exit_status(false), 1);
}

#[test]
fn update_choices() {
    let given = vec!["/a".to_string()];
    assert_eq!(paths_or_default(&given, vec!["/d".to_string()]), vec!["/a".to_string()]);
    assert_eq!(paths_or_default(&Vec::new(), vec!["/d".to_string()]), vec!["/d".to_string()]);
    assert_eq!(lock_path("/x/mlocate.db"), "/x/mlocate.db.lock");
    assert_eq!(build_plan(false, false, true, true), BuildPlan::Full);
    assert_eq!(build_plan(true, true, true, true), BuildPlan::Full);
    assert_eq!(build_plan(true, false, false, true), BuildPlan::FullNoIndex);
    assert_eq!(build_plan(true, false, true, false), BuildPlan::FullNoDirTable);
    assert_eq!(build_plan(true, false, true, true), BuildPlan::Incremental);
}
