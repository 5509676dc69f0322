use workshop_cleaner::driver::CleanupError;
use workshop_cleaner::driver::ConfigSource;
use workshop_cleaner::driver::Phase;
use workshop_cleaner::driver::advance;
use workshop_cleaner::driver::judge_install;
use workshop_cleaner::driver::judge_removal;
use workshop_cleaner::driver::resolve_library_list;
use workshop_cleaner::driver::userdata_purge_plan;
use workshop_cleaner::driver::workshop_purge_plan;
use workshop_cleaner::driver::workshop_targets;
use workshop_cleaner::paths::library_config_path;
use workshop_cleaner::paths::login_cache_path;
use workshop_cleaner::paths::userdata_path;
use workshop_cleaner::paths::workshop_cache_path;

fn chars(s: &str) -> Vec<char> {
    s.chars().collect()
}

fn text_of(v: &Vec<char>) -> String {
    v.iter().collect()
}

#[test]
fn derives_the_fixed_paths_from_the_install_root() {
    let install = chars("C:\\Steam");
    assert_eq!(
        text_of(&login_cache_path(&install)),
        "C:\\Steam/config/loginusers.vdf"
    );
    assert_eq!(text_of(&userdata_path(&install)), "C:\\Steam/userdata");
    assert_eq!(
        text_of(&library_config_path(&install)),
        "C:\\Steam/steamapps/libraryfolders.vdf"
    );
    assert_eq!(
        text_of(&workshop_cache_path(&install)),
        "C:\\Steam/steamapps/workshop"
    );
}

#[test]
fn configured_install_path_is_handed_through() {
    let got = judge_install(Some(chars("C:\\Steam"))).unwrap();
    assert_eq!(text_of(&got), "C:\\Steam");
}

#[test]
fn absent_install_path_is_fatal() {
    let got = judge_install(None);
    assert!(matches!(got, Err(CleanupError::NotConfigured)));
}

#[test]
fn absent_config_file_yields_the_default_root_alone() {
    let got = resolve_library_list(ConfigSource::Absent, &chars("R")).unwrap();
    let got: Vec<String> = got.iter().map(text_of).collect();
    assert_eq!(got, vec!["R/steamapps/workshop".to_string()]);
}

#[test]
fn present_config_file_is_parsed_and_resolved() {
    let text = chars("\"libraryfolders\" { \"0\" { \"path\" \"D:\\\\Lib\" } }");
    let got = resolve_library_list(ConfigSource::Text(text), &chars("R")).unwrap();
    let got: Vec<String> = got.iter().map(text_of).collect();
    assert_eq!(
        got,
        vec!["R/steamapps/workshop".to_string(), "D:\\Lib".to_string()]
    );
}

#[test]
fn unreadable_config_file_is_fatal_not_absent() {
    let got = resolve_library_list(ConfigSource::Unreadable, &chars("R"));
    assert!(matches!(got, Err(CleanupError::ConfigUnreadable)));
}

#[test]
fn malformed_config_file_is_fatal() {
    let text = chars("\"libraryfolders\" { \"0\" { \"path\" \"unterminated }");
    let got = resolve_library_list(ConfigSource::Text(text), &chars("R"));
    assert!(matches!(got, Err(CleanupError::BadParse(_))));
}

#[test]
fn incomplete_config_file_is_fatal() {
    let text = chars("\"libraryfolders\" { \"0\" { \"label\" \"x\" } }");
    let got = resolve_library_list(ConfigSource::Text(text), &chars("R"));
    assert!(matches!(got, Err(CleanupError::BadSchema(_))));
}

#[test]
fn absent_userdata_directory_means_no_removals() {
    let plan = userdata_purge_plan(None);
    assert!(plan.is_empty());
}

#[test]
fn listed_userdata_children_are_all_removed() {
    let plan = userdata_purge_plan(Some(vec![chars("R/userdata/1"), chars("R/userdata/2")]));
    assert_eq!(plan, vec![chars("R/userdata/1"), chars("R/userdata/2")]);
}

#[test]
fn absent_workshop_cache_is_skipped_without_error() {
    let plan = workshop_purge_plan(false, vec![chars("would-be-child")]);
    assert!(plan.is_empty());
}

#[test]
fn present_workshop_cache_has_every_child_removed() {
    let children = vec![chars("W/123"), chars("W/456"), chars("W/789")];
    let plan = workshop_purge_plan(true, children.clone());
    assert_eq!(plan, children);
}

#[test]
fn each_registered_root_contributes_its_workshop_cache() {
    let roots = vec![chars("R/steamapps/workshop"), chars("A"), chars("B:\\Lib")];
    let ts: Vec<String> = workshop_targets(&roots).iter().map(text_of).collect();
    assert_eq!(
        ts,
        vec![
            "R/steamapps/workshop".to_string(),
            "A/steamapps/workshop".to_string(),
            "B:\\Lib/steamapps/workshop".to_string()
        ]
    );
}

#[test]
fn default_roots_own_cache_is_a_purge_target() {
    // Resolve, then derive the targets: the install's own cache must
    // itself be targeted, not a doubled path inside it.
    let text = chars("\"libraryfolders\" { \"0\" { \"path\" \"D:\\\\Lib\" } }");
    let roots = resolve_library_list(ConfigSource::Text(text), &chars("R")).unwrap();
    let ts: Vec<String> = workshop_targets(&roots).iter().map(text_of).collect();
    assert_eq!(
        ts,
        vec![
            "R/steamapps/workshop".to_string(),
            "D:\\Lib/steamapps/workshop".to_string()
        ]
    );
}

#[test]
fn vanished_entries_are_tolerated_but_failed_removals_abort() {
    assert!(judge_removal(chars("p"), false, false).is_ok());
    assert!(judge_removal(chars("p"), true, true).is_ok());
    match judge_removal(chars("W/123"), true, false) {
        Err(CleanupError::RemovalFailed(p)) => assert_eq!(text_of(&p), "W/123"),
        other => panic!("expected a removal failure, got {:?}", other),
    }
}

#[test]
fn phases_run_in_order_and_abort_on_a_fatal_outcome() {
    let mut p = Phase::LocateInstall;
    let order = [
        Phase::LocateInstall,
        Phase::PurgeLoginCache,
        Phase::PurgeUserData,
        Phase::ResolveLibraries,
        Phase::PurgeWorkshopCaches,
        Phase::Done,
    ];
    for k in 0..order.len() {
        assert_eq!(p, order[k]);
        p = advance(p, false);
    }
    assert_eq!(p, Phase::Done);
    assert_eq!(advance(Phase::PurgeUserData, true), Phase::Aborted);
    assert_eq!(advance(Phase::Aborted, false), Phase::Aborted);
}
