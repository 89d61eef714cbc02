use logdeck::model::Project;
use logdeck::project::{add, load, remove, Facts, Found, RegistryError, Stored};
use logdeck::registry::{is_quarantined, not_watched, AppState, WRITE_REFUSED};

const PLAIN: Facts = Facts {
    is_dir: true,
    has_artisan: false,
    has_logs_dir: false,
};

fn add_folder(projects: &mut Vec<Project>, path: &str) -> Result<Project, String> {
    let found = Found::Resolved {
        path: path.to_owned(),
        is_dir: true,
    };
    add(projects, path, found, PLAIN).map_err(|error| error.message())
}

fn registry_with(path: &str) -> AppState {
    let mut projects = Vec::new();
    add_folder(&mut projects, path).expect("seed the registry");
    let mut state = AppState::new();
    state.restore(Ok(projects), false);
    state
}

fn unwritable() -> Result<(), RegistryError> {
    Err(RegistryError::Io {
        path: "/cfg".to_owned(),
        reason: "Not a directory".to_owned(),
    })
}

/// Change the registry, save it, and only then let the change be seen.
fn update<T>(
    state: &mut AppState,
    saved: Result<(), RegistryError>,
    mutate: impl FnOnce(&mut Vec<Project>) -> Result<T, String>,
) -> Result<T, String> {
    let mut candidate = state.begin()?;
    let outcome = mutate(&mut candidate)?;
    if state.differs(&candidate) {
        state.commit(candidate, saved)?;
    }
    Ok(outcome)
}

#[test]
fn an_unregistered_project_id_is_refused_rather_than_resolved_to_another() {
    let state = registry_with("/tmp/api");

    let err = state
        .project_root("/no/such/project")
        .expect_err("an unregistered id must not resolve to a path");
    assert_eq!(err, "`/no/such/project` is not a registered project");

    let registered = state.list_projects()[0].id().as_str().to_owned();
    let resolved = state
        .project_root(&registered)
        .expect("the registered id resolves");
    assert_eq!(
        resolved,
        state.list_projects()[0].path(),
        "and it resolves to its own folder, not another's"
    );
}

#[test]
fn a_failed_save_does_not_leave_the_added_project_in_memory() {
    let mut state = AppState::default();

    let result = update(&mut state, unwritable(), |projects| {
        add_folder(projects, "/tmp/api")
    });

    assert_eq!(
        result.expect_err("the save failed, so the add failed"),
        "i/o error on `/cfg`: Not a directory"
    );
    assert!(
        state.list_projects().is_empty(),
        "a Project the user was told was not added must not show up in list_projects"
    );
}

#[test]
fn a_failed_save_does_not_remove_the_project_from_memory() {
    let mut state = registry_with("/tmp/api");

    let result = update(&mut state, unwritable(), |projects| {
        remove(projects, "/tmp/api");
        Ok(())
    });

    assert!(result.is_err(), "the save failed, so the removal failed");
    assert_eq!(
        state.list_projects().len(),
        1,
        "a Project the user was told was not removed is still registered"
    );
}

#[test]
fn removing_an_unknown_project_needs_no_write_at_all() {
    let mut state = AppState::default();

    let result = update(&mut state, unwritable(), |projects| {
        remove(projects, "/no/such/project");
        Ok(())
    });

    assert!(result.is_ok(), "got {result:?}");
}

#[test]
fn a_registry_that_could_not_be_read_refuses_every_later_project_write() {
    let mut state = AppState::default();

    let loaded = load(Stored::Unreadable {
        path: "/cfg/projects.json".to_owned(),
        reason: "Is a directory".to_owned(),
    });
    state.restore(loaded, false);

    let result = update(&mut state, Ok(()), |projects| {
        add_folder(projects, "/tmp/api")
    });

    let err = result.expect_err("the write must be refused");
    assert_eq!(
        err,
        format!("{WRITE_REFUSED} (i/o error on `/cfg/projects.json`: Is a directory)")
    );
    assert_eq!(state.write_refused(), Some(err.as_str()));
    assert!(
        state.list_projects().is_empty(),
        "the refused add left nothing behind"
    );
}

#[test]
fn a_corrupt_registry_that_cannot_be_quarantined_refuses_project_writes() {
    let mut state = AppState::default();

    let loaded = load(Stored::Malformed {
        path: "/cfg/projects.json".to_owned(),
        reason: "key must be a string".to_owned(),
    });
    state.restore(loaded, false);

    let result = update(&mut state, Ok(()), |projects| {
        add_folder(projects, "/tmp/api")
    });

    assert!(
        result
            .expect_err("the write must be refused")
            .contains(WRITE_REFUSED),
        "a corrupt registry that stayed put must not be overwritten"
    );
}

#[test]
fn a_quarantined_registry_still_lets_the_user_add_a_project() {
    let mut state = AppState::default();

    let loaded = load(Stored::Malformed {
        path: "/cfg/projects.json".to_owned(),
        reason: "key must be a string".to_owned(),
    });
    assert!(loaded.as_ref().is_err_and(is_quarantined));
    state.restore(loaded, true);

    let added = update(&mut state, Ok(()), |projects| {
        add_folder(projects, "/tmp/api")
    });

    assert!(added.is_ok(), "got {added:?}");
    assert_eq!(state.list_projects().len(), 1);
}

#[test]
fn a_first_run_with_no_registry_file_allows_project_writes() {
    let mut state = AppState::default();

    state.restore(load(Stored::Missing), false);

    let added = update(&mut state, Ok(()), |projects| {
        add_folder(projects, "/tmp/api")
    });

    assert!(added.is_ok(), "got {added:?}");
    assert_eq!(state.list_projects().len(), 1);
}

#[test]
fn an_unreadable_registry_is_not_moved_aside() {
    let error = RegistryError::Io {
        path: "/cfg/projects.json".to_owned(),
        reason: "denied".to_owned(),
    };
    assert!(!is_quarantined(&error));
    let mut state = AppState::default();
    state.restore(Err(error), true);
    assert!(state.write_refused().is_some());
}

#[test]
fn every_registered_project_is_watched() {
    let state = registry_with("/tmp/api");
    let roots = state.watched();
    assert_eq!(roots.len(), 1);
    assert_eq!(roots[0].0.as_str(), "/tmp/api");
    assert_eq!(roots[0].1, "/tmp/api");
    assert_eq!(not_watched("/tmp/api"), "`/tmp/api` is not being watched");
}

#[test]
fn an_add_that_changes_nothing_is_not_saved() {
    let mut state = registry_with("/tmp/api");
    let same = update(&mut state, unwritable(), |projects| {
        add_folder(projects, "/tmp/api")
    });
    assert!(same.is_ok());
}
