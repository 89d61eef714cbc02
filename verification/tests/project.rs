use logdeck::model::{Health, Project};
use logdeck::paths::logs_dir;
use logdeck::project::{
    add, canonicalize_project_path, disambiguate_labels, health_of, load, remove,
    require_absolute, Facts, Found, RegistryError, Stored, StoredFolder, QUARANTINE_FILE_NAME,
    REGISTRY_FILE_NAME,
};
use logdeck::sink::{Recorder, Emitted, StatusState};
use logdeck::files::newest_log;
use logdeck::model::ProjectId;
use logdeck::watcher::{Mode, Probe, WatcherState};

const PLAIN: Facts = Facts {
    is_dir: true,
    has_artisan: false,
    has_logs_dir: false,
};

const NO_LOGS: Facts = Facts {
    is_dir: true,
    has_artisan: true,
    has_logs_dir: false,
};

const LARAVEL: Facts = Facts {
    is_dir: true,
    has_artisan: true,
    has_logs_dir: true,
};

fn folder(path: &str) -> Found {
    Found::Resolved {
        path: path.to_owned(),
        is_dir: true,
    }
}

fn add_folder(projects: &mut Vec<Project>, path: &str, facts: Facts) -> Project {
    add(projects, path, folder(path), facts).expect("add")
}

fn stored(path: &str, resolves_to: &str, facts: Facts) -> StoredFolder {
    StoredFolder {
        path: path.to_owned(),
        found: folder(resolves_to),
        facts,
    }
}

#[test]
fn a_folder_without_artisan_is_still_added_with_the_reason() {
    let mut projects = Vec::new();

    let project = add_folder(&mut projects, "/tmp/plain-folder", PLAIN);

    assert_eq!(
        projects.len(),
        1,
        "the folder is registered despite failing validation"
    );
    assert_eq!(project.health(), &Health::NotLaravel);
    assert_eq!(project.label(), "plain-folder");
    assert_eq!(project.path(), "/tmp/plain-folder");
}

#[test]
fn a_laravel_root_without_a_logs_dir_reports_no_logs_dir() {
    let mut projects = Vec::new();
    let project = add_folder(&mut projects, "/tmp/api", NO_LOGS);
    assert_eq!(project.health(), &Health::NoLogsDir);
}

#[test]
fn a_laravel_root_with_an_empty_logs_dir_is_healthy() {
    let mut projects = Vec::new();
    let project = add_folder(&mut projects, "/tmp/api", LARAVEL);
    assert_eq!(project.health(), &Health::Healthy);
}

#[test]
fn adding_the_same_path_twice_yields_one_project() {
    let mut projects = Vec::new();

    let first = add_folder(&mut projects, "/tmp/api", LARAVEL);
    let second = add_folder(&mut projects, "/tmp/api", LARAVEL);

    assert_eq!(projects.len(), 1);
    assert_eq!(first.id(), second.id());
}

#[test]
fn adding_the_same_folder_through_a_dot_segment_is_still_one_project() {
    let mut projects = Vec::new();

    add_folder(&mut projects, "/tmp/api", LARAVEL);
    add(&mut projects, "/tmp/api/./", folder("/tmp/api"), LARAVEL).expect("add");

    assert_eq!(projects.len(), 1);
    assert_eq!(projects[0].path(), "/tmp/api");
}

#[test]
fn two_folders_named_api_get_distinct_labels() {
    let mut projects = Vec::new();

    add_folder(&mut projects, "/tmp/work/api", PLAIN);
    add_folder(&mut projects, "/tmp/side/api", PLAIN);

    assert_eq!(projects[0].label(), "work/api");
    assert_eq!(projects[1].label(), "side/api");
}

#[test]
fn labels_keep_growing_until_they_actually_differ() {
    let mut projects = Vec::new();

    add_folder(&mut projects, "/tmp/work/acme/api", PLAIN);
    add_folder(&mut projects, "/tmp/side/acme/api", PLAIN);

    assert_eq!(projects[0].label(), "work/acme/api");
    assert_eq!(projects[1].label(), "side/acme/api");
}

#[test]
fn a_lone_project_keeps_its_basename_as_its_label() {
    let mut projects = Vec::new();
    add_folder(&mut projects, "/tmp/work/acme/api", PLAIN);
    assert_eq!(projects[0].label(), "api");
}

#[test]
fn removing_a_colliding_project_restores_the_plain_basename() {
    let mut projects = Vec::new();
    add_folder(&mut projects, "/tmp/work/api", PLAIN);
    add_folder(&mut projects, "/tmp/side/api", PLAIN);
    assert_ne!(projects[0].label(), "api");

    let removed = remove(&mut projects, "/tmp/side/api");

    assert!(removed);
    assert_eq!(projects.len(), 1);
    assert_eq!(projects[0].label(), "api");
}

#[test]
fn removing_an_unknown_id_is_a_no_op() {
    let mut projects = Vec::new();
    add_folder(&mut projects, "/tmp/api", PLAIN);

    assert!(!remove(&mut projects, "/no/such/project"));
    assert_eq!(projects.len(), 1);
}

#[test]
fn save_then_load_round_trips_through_a_temp_dir() {
    let mut projects = Vec::new();
    add_folder(&mut projects, "/tmp/work/api", LARAVEL);
    add_folder(&mut projects, "/tmp/side/notes", PLAIN);

    let loaded = load(Stored::Folders(vec![
        stored("/tmp/work/api", "/tmp/work/api", LARAVEL),
        stored("/tmp/side/notes", "/tmp/side/notes", PLAIN),
    ]))
    .expect("load");

    assert_eq!(loaded, projects, "the registry survives a restart");
}

#[test]
fn loading_re_derives_identity_when_the_stored_id_disagrees_with_the_path() {
    let loaded = load(Stored::Folders(vec![stored(
        "/tmp/work/api",
        "/tmp/work/api",
        LARAVEL,
    )]))
    .expect("load");

    assert_eq!(loaded.len(), 1);
    assert_eq!(
        loaded[0].id().as_str(),
        "/tmp/work/api",
        "id is re-derived from the path, never trusted from the file"
    );
    assert_eq!(loaded[0].label(), "api", "label is re-derived too");
    assert_eq!(loaded[0].health(), &Health::Healthy, "health is recomputed");
}

#[test]
fn loading_re_runs_collision_disambiguation() {
    let loaded = load(Stored::Folders(vec![
        stored("/tmp/work/api", "/tmp/work/api", PLAIN),
        stored("/tmp/side/api", "/tmp/side/api", PLAIN),
    ]))
    .expect("load");

    assert_eq!(loaded.len(), 2);
    assert_ne!(loaded[0].label(), loaded[1].label());
}

#[test]
fn loading_a_registry_whose_folder_vanished_keeps_the_project_as_unavailable() {
    let loaded = load(Stored::Folders(vec![StoredFolder {
        path: "/tmp/work/api".to_owned(),
        found: Found::Unresolved("No such file or directory".to_owned()),
        facts: Facts {
            is_dir: false,
            has_artisan: false,
            has_logs_dir: false,
        },
    }]))
    .expect("load");

    assert_eq!(loaded.len(), 1, "removal stays a deliberate user action");
    assert_eq!(
        loaded[0].health(),
        &Health::Unavailable(
            "cannot resolve `/tmp/work/api`: No such file or directory".to_owned()
        )
    );
    assert_eq!(loaded[0].id().as_str(), "/tmp/work/api");
}

#[test]
fn a_missing_registry_file_loads_as_empty_not_as_an_error() {
    let loaded = load(Stored::Missing).expect("first run is not a failure");
    assert!(loaded.is_empty());
}

#[test]
fn a_corrupt_registry_is_an_error_rather_than_a_silent_wipe() {
    let result = load(Stored::Malformed {
        path: format!("/cfg/{REGISTRY_FILE_NAME}"),
        reason: "key must be a string".to_owned(),
    });

    let error = result.expect_err("not a registry");
    assert!(matches!(error, RegistryError::Corrupt { .. }));
    assert_eq!(
        error.message(),
        "registry at `/cfg/projects.json` is unreadable: key must be a string"
    );
}

#[test]
fn two_stored_entries_that_resolve_to_the_same_folder_collapse_into_one() {
    let loaded = load(Stored::Folders(vec![
        stored("/tmp/work/api", "/tmp/work/api", LARAVEL),
        stored("/tmp/work/api/./", "/tmp/work/api", LARAVEL),
    ]))
    .expect("load");

    assert_eq!(loaded.len(), 1, "one folder is one Project");
    assert_eq!(loaded[0].path(), "/tmp/work/api");
    assert_eq!(
        loaded[0].label(),
        "api",
        "the label is re-derived, not kept"
    );
}

#[test]
fn load_surfaces_an_io_error_instead_of_reporting_an_empty_registry() {
    let result = load(Stored::Unreadable {
        path: "/cfg/projects.json".to_owned(),
        reason: "Is a directory".to_owned(),
    });

    let error = result.expect_err("expected an Io error");
    assert!(matches!(error, RegistryError::Io { .. }));
    assert_eq!(
        error.message(),
        "i/o error on `/cfg/projects.json`: Is a directory"
    );
}

#[test]
fn a_relative_path_is_refused_rather_than_resolved() {
    let mut projects = Vec::new();

    let result = add(&mut projects, "../../etc", folder("/etc"), PLAIN);

    assert!(matches!(result, Err(RegistryError::NotAbsolute(_))));
    assert!(projects.is_empty());
    assert_eq!(
        require_absolute("../../etc").expect_err("relative").message(),
        "project path must be absolute, got `../../etc`"
    );
    assert!(require_absolute("/etc").is_ok());
}

#[test]
fn a_path_that_does_not_exist_is_refused() {
    let mut projects = Vec::new();

    let result = add(
        &mut projects,
        "/tmp/nope",
        Found::Unresolved("No such file or directory".to_owned()),
        PLAIN,
    );

    assert!(matches!(result, Err(RegistryError::Unresolvable { .. })));
    assert!(projects.is_empty());
}

#[test]
fn a_file_is_not_a_project() {
    let mut projects = Vec::new();

    let result = add(
        &mut projects,
        "/tmp/laravel.txt",
        Found::Resolved {
            path: "/tmp/laravel.txt".to_owned(),
            is_dir: false,
        },
        PLAIN,
    );

    let error = result.expect_err("not a folder");
    assert!(matches!(error, RegistryError::NotADirectory(_)));
    assert_eq!(error.message(), "`/tmp/laravel.txt` is not a folder");
}

#[test]
fn stored_paths_carry_no_traversal_segments() {
    let mut projects = Vec::new();

    let project = add(
        &mut projects,
        "/tmp/work/api/../api",
        folder("/tmp/work/api"),
        PLAIN,
    )
    .expect("add");

    assert_eq!(
        project.path(),
        "/tmp/work/api",
        "the canonical form is what is stored"
    );
    assert!(!project.path().contains(".."));
}

#[test]
fn re_adding_a_project_refreshes_its_health() {
    let mut projects = Vec::new();
    let before = add_folder(&mut projects, "/tmp/api", PLAIN);
    assert_eq!(before.health(), &Health::NotLaravel);

    let after = add_folder(&mut projects, "/tmp/api", LARAVEL);

    assert_eq!(projects.len(), 1);
    assert_eq!(after.health(), &Health::Healthy);
    assert_eq!(projects[0].health(), &Health::Healthy);
}

#[test]
fn row_01_a_folder_with_no_storage_logs_is_added_and_marked_inert() {
    let mut projects = Vec::new();
    let added = add_folder(&mut projects, "/tmp/no-logs-dir", NO_LOGS);
    let other = add_folder(&mut projects, "/tmp/not-laravel", PLAIN);

    assert_eq!(projects.len(), 2, "both folders are registered");
    assert_eq!(
        added.health(),
        &Health::NoLogsDir,
        "the reason is recorded, not the rejection"
    );
    assert_eq!(other.health(), &Health::NotLaravel);
    assert_eq!(added.label(), "no-logs-dir", "it is a nameable Project");

    // Inert: a watcher over it finds nothing and reports offline with a reason.
    let mut sink = Recorder::new();
    let mut state = WatcherState::new(
        ProjectId::from_canonical("/tmp/no-logs-dir"),
        "/tmp/no-logs-dir".to_owned(),
        Mode::Selected,
    );
    let found = match state.locate(Ok("/tmp/no-logs-dir".to_owned())) {
        Probe::Newest { dir } => newest_log(&dir, Err("No such file or directory".to_owned())),
        other => panic!("the newest log is looked for, not {other:?}"),
    };
    state.poll(&mut sink, found);

    assert_eq!(sink.events.len(), 1, "{:#?}", sink.events);
    match &sink.events[0] {
        Emitted::Status(status) => {
            assert_eq!(status.state, StatusState::Offline);
            assert_eq!(
                status.reason.as_deref(),
                Some("cannot read /tmp/no-logs-dir/storage/logs: No such file or directory")
            );
        }
        other => panic!("nothing is tailed: {other:#?}"),
    }
}

#[test]
fn a_folder_that_went_away_is_unavailable() {
    let gone = Facts {
        is_dir: false,
        has_artisan: true,
        has_logs_dir: true,
    };
    assert_eq!(
        health_of("/tmp/api", gone),
        Health::Unavailable("/tmp/api is not a readable folder".to_owned())
    );
}

#[test]
fn a_canonical_path_is_what_was_found() {
    assert_eq!(
        canonicalize_project_path("/tmp/link", folder("/tmp/api")),
        Ok("/tmp/api".to_owned())
    );
    assert_eq!(
        canonicalize_project_path("/tmp/link", Found::Unresolved("gone".to_owned()))
            .expect_err("unresolved")
            .message(),
        "cannot resolve `/tmp/link`: gone"
    );
}

#[test]
fn logs_are_in_storage() {
    assert_eq!(logs_dir("/srv/api"), "/srv/api/storage/logs");
    assert_eq!(logs_dir("/"), "/storage/logs");
    assert_eq!(QUARANTINE_FILE_NAME, "projects.json.corrupt");
}

#[test]
fn a_path_that_ends_another_keeps_the_shorter_label() {
    let mut projects = Vec::new();
    for path in ["/b/c", "/a/b/c", "/z/b/c", "/other"] {
        projects.push(Project::new(path.to_owned(), Health::Healthy));
    }
    disambiguate_labels(&mut projects);
    let labels: Vec<_> = projects.iter().map(|project| project.label()).collect();
    assert_eq!(labels, vec!["b/c", "a/b/c", "z/b/c", "other"]);

    // Labelling again changes nothing.
    let before = projects.clone();
    disambiguate_labels(&mut projects);
    assert_eq!(projects, before);
}

#[test]
fn two_projects_of_one_path_share_the_whole_path_as_label() {
    let mut projects = vec![
        Project::new("/a/b".to_owned(), Health::Healthy),
        Project::new("/a/b".to_owned(), Health::Healthy),
        Project::new("/".to_owned(), Health::Healthy),
    ];
    disambiguate_labels(&mut projects);
    let labels: Vec<_> = projects.iter().map(|project| project.label()).collect();
    assert_eq!(labels, vec!["a/b", "a/b", "/"]);
}
