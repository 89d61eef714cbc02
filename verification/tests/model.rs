use logdeck::model::{BreakId, EntryId, Health, Level, Project};

#[test]
fn level_orders_from_unknown_to_emergency() {
    assert!(
        Level::Unknown < Level::Debug,
        "Unknown must rank below every real severity so it cannot inflate the Activity rollup"
    );
    assert!(Level::Debug < Level::Info);
    assert!(Level::Info < Level::Notice);
    assert!(Level::Notice < Level::Warning);
    assert!(Level::Warning < Level::Error);
    assert!(Level::Error < Level::Critical);
    assert!(Level::Critical < Level::Alert);
    assert!(Level::Alert < Level::Emergency);

    let all = [
        Level::Unknown,
        Level::Debug,
        Level::Info,
        Level::Notice,
        Level::Warning,
        Level::Error,
        Level::Critical,
        Level::Alert,
        Level::Emergency,
    ];
    assert_eq!(all.len(), 9);
    assert!(all.windows(2).all(|pair| pair[0] < pair[1]));
    assert_eq!(all.iter().max(), Some(&Level::Emergency));
    assert_eq!(all.iter().min(), Some(&Level::Unknown));
}

#[test]
fn project_derives_id_and_label_from_its_path() {
    let project = Project::new("/Users/dev/projects/api".to_owned(), Health::Healthy);

    assert_eq!(project.id().as_str(), "/Users/dev/projects/api");
    assert_eq!(project.label(), "api");
    assert_eq!(
        project.id().as_str(),
        project.path(),
        "id must stay tied to path"
    );
}

#[test]
fn entry_and_break_ids_use_the_documented_format() {
    assert_eq!(
        EntryId::new("laravel-2026-08-14.log", 184_320).as_str(),
        "laravel-2026-08-14.log:184320"
    );
    assert_eq!(
        BreakId::new("laravel-2026-08-14.log", 0).as_str(),
        "laravel-2026-08-14.log:0:break"
    );
}

#[test]
fn ranks_run_from_zero_to_eight() {
    assert_eq!(Level::Unknown.rank(), 0);
    assert_eq!(Level::Error.rank(), 5);
    assert_eq!(Level::Emergency.rank(), 8);
    assert!(!(Level::Alert < Level::Alert));
}

#[test]
fn a_bare_root_is_its_own_label() {
    let project = Project::new("/".to_owned(), Health::NotLaravel);
    assert_eq!(project.label(), "/");
    assert!(project.segments().is_empty());
}

#[test]
fn the_segments_of_a_path_are_its_names() {
    let project = Project::new("/Users/dev/projects/api".to_owned(), Health::Healthy);
    assert_eq!(project.segments(), &["Users", "dev", "projects", "api"]);
}

#[test]
fn a_project_takes_a_new_label_and_a_new_health() {
    let mut project = Project::new("/a/b".to_owned(), Health::Healthy);
    let before = project.clone();
    assert!(project.same(&before));

    project.set_label("a/b".to_owned());
    assert_eq!(project.label(), "a/b");
    assert!(!project.same(&before));

    project.set_health(Health::Unavailable("gone".to_owned()));
    assert_eq!(project.health(), &Health::Unavailable("gone".to_owned()));
    assert!(!Health::Healthy.same(project.health()));
    assert_eq!(project.id().as_str(), "/a/b");
}
