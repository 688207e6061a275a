use path_tracer::settings::{
    first_named, resolve_object, Integrator, LookupError, ObjectRefs, PathRules, Renderer, Resolved,
    SettingsError,
};

fn renderer(integrator: Option<&str>) -> Renderer {
    Renderer {
        samples: 16,
        depth: None,
        depth_limit: None,
        no_direct_emitter: None,
        threads: None,
        integrator: integrator.map(|s| s.to_string()),
    }
}

#[test]
fn defaults_fill_missing_settings() {
    let rules = renderer(None).path_rules();
    assert_eq!(
        rules,
        PathRules { min_depth: 5, depth_limit: 64, no_direct_emitter: false }
    );
}

#[test]
fn named_settings_are_kept() {
    let mut r = renderer(None);
    r.depth = Some(2);
    r.depth_limit = Some(10);
    r.no_direct_emitter = Some(true);
    let rules = r.path_rules();
    assert_eq!(rules, PathRules { min_depth: 2, depth_limit: 10, no_direct_emitter: true });
}

#[test]
fn thread_count_falls_back_to_cpus() {
    let mut r = renderer(None);
    assert_eq!(r.thread_count(8), 8);
    r.threads = Some(0);
    assert_eq!(r.thread_count(8), 8);
    r.threads = Some(3);
    assert_eq!(r.thread_count(8), 3);
}

#[test]
fn integrator_choice() {
    assert_eq!(renderer(None).integrator_kind(), Ok(Integrator::PtDirect));
    assert_eq!(renderer(Some("pt")).integrator_kind(), Ok(Integrator::Pt));
    assert_eq!(renderer(Some("pt-direct")).integrator_kind(), Ok(Integrator::PtDirect));
    assert_eq!(
        renderer(Some("bdpt")).integrator_kind(),
        Err(SettingsError::UnknownIntegrator("bdpt".to_string()))
    );
}

#[test]
fn emission_rules() {
    let plain = PathRules { min_depth: 5, depth_limit: 64, no_direct_emitter: false };
    let hidden = PathRules { no_direct_emitter: true, ..plain };
    assert!(plain.emits(0, false, true));
    assert!(!plain.emits(0, false, false));
    assert!(!plain.emits(3, true, true));
    assert!(!hidden.emits(0, false, true));
    assert!(hidden.emits(1, false, true));
}

#[test]
fn roulette_depth_rules() {
    let rules = PathRules { min_depth: 5, depth_limit: 64, no_direct_emitter: false };
    assert!(rules.forced(0));
    assert!(rules.forced(5));
    assert!(!rules.forced(6));
    assert_eq!(rules.halvings(10), 0);
    assert_eq!(rules.halvings(64), 0);
    assert_eq!(rules.halvings(65), 1);
    assert_eq!(rules.halvings(70), 6);
}

#[test]
fn first_named_finds_the_first_match() {
    let names = vec!["floor".to_string(), "light".to_string(), "floor".to_string()];
    assert_eq!(first_named(&names, &"floor".to_string()), Some(0));
    assert_eq!(first_named(&names, &"light".to_string()), Some(1));
    assert_eq!(first_named(&names, &"wall".to_string()), None);
    assert_eq!(first_named(&Vec::new(), &"wall".to_string()), None);
}

fn names(list: &[&str]) -> Vec<String> {
    list.iter().map(|s| s.to_string()).collect()
}

#[test]
fn resolve_object_finds_every_reference() {
    let refs = ObjectRefs {
        name: Some("lamp".to_string()),
        mesh: "quad".to_string(),
        material: Some("white".to_string()),
    };
    let r = resolve_object(
        &refs,
        &names(&["ball", "quad", "quad"]),
        &names(&["red", "white"]),
        &names(&["sun", "lamp"]),
    );
    assert_eq!(r, Ok(Resolved { mesh: 1, material: Some(1), light: Some(1) }));
}

#[test]
fn resolve_object_without_optional_references() {
    let refs = ObjectRefs { name: None, mesh: "ball".to_string(), material: None };
    let r = resolve_object(&refs, &names(&["ball"]), &names(&[]), &names(&["ball"]));
    assert_eq!(r, Ok(Resolved { mesh: 0, material: None, light: None }));
    let named = ObjectRefs { name: Some("floor".to_string()), mesh: "ball".to_string(), material: None };
    let r = resolve_object(&named, &names(&["ball"]), &names(&[]), &names(&["lamp"]));
    assert_eq!(r, Ok(Resolved { mesh: 0, material: None, light: None }));
}

#[test]
fn resolve_object_reports_missing_names() {
    let refs = ObjectRefs {
        name: None,
        mesh: "cube".to_string(),
        material: Some("gold".to_string()),
    };
    let r = resolve_object(&refs, &names(&["ball"]), &names(&["red"]), &names(&[]));
    assert_eq!(r, Err(LookupError::MissingMesh("cube".to_string())));
    let r = resolve_object(&refs, &names(&["cube"]), &names(&["red"]), &names(&[]));
    assert_eq!(r, Err(LookupError::MissingMaterial("gold".to_string())));
}
