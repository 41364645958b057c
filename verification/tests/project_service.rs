use musicos::core_types::ProjectId;
use musicos::project_service::{project_id_for_name, ProjectError, ProjectService};

#[test]
fn creates_projects_with_unique_ids() {
    let mut svc = ProjectService::new();
    let a = svc.create_project("Alpha").unwrap();
    let b = svc.create_project("Beta").unwrap();
    assert_ne!(a.id, b.id);
    assert_eq!(a.name, "Alpha");
}

#[test]
fn rejects_blank_names() {
    let mut svc = ProjectService::new();
    assert_eq!(svc.create_project("   "), Err(ProjectError::EmptyName));
    assert_eq!(ProjectError::EmptyName.message(), "project name must not be empty");
}

#[test]
fn names_are_trimmed_and_ids_count_up() {
    let mut svc = ProjectService::new();
    assert_eq!(svc.create_project("").unwrap_err(), ProjectError::EmptyName);
    let a = svc.create_project("  Song \t").unwrap();
    assert_eq!(a.name, "Song");
    assert_eq!(a.id, ProjectId(0));
    assert_eq!(svc.create_project("Next").unwrap().id, ProjectId(1));
}

#[test]
fn project_ids_by_name_are_fnv1a() {
    assert_eq!(project_id_for_name(""), ProjectId(0xcbf2_9ce4_8422_2325));
    assert_eq!(project_id_for_name("a"), ProjectId(0xaf63_dc4c_8601_ec8c));
    assert_ne!(project_id_for_name("Alpha"), project_id_for_name("Beta"));
}
