use lib::session::{
    build_axis, cap_samples, clamp_dim, clamp_resolution, tool_by_name, tool_defs, BuildAxis,
    SceneHistory, Tool, MAX_IMAGE_DIM, MAX_RESOLUTION, SCREENSHOT_ABOUT, projection_is_ortho,
    view_index,
};

#[test]
fn resolution_is_clamped_to_safe_range() {
    assert_eq!(clamp_resolution(0), 1);
    assert_eq!(clamp_resolution(1), 1);
    assert_eq!(clamp_resolution(48), 48);
    assert_eq!(clamp_resolution(256), 256);
    assert_eq!(clamp_resolution(100_000), MAX_RESOLUTION);
    assert_eq!(clamp_resolution(usize::MAX), MAX_RESOLUTION);
}

#[test]
fn image_dims_are_clamped() {
    assert_eq!(clamp_dim(0), 1);
    assert_eq!(clamp_dim(512), 512);
    assert_eq!(clamp_dim(1_000_000), MAX_IMAGE_DIM);
}

#[test]
fn supersampling_never_exceeds_the_image_limit() {
    assert_eq!(cap_samples(2, 512, 512), 2);
    assert_eq!(cap_samples(0, 512, 512), 1);
    assert_eq!(cap_samples(9, 512, 512), 4);
    assert_eq!(cap_samples(4, 4096, 512), 1);
    assert_eq!(cap_samples(4, 1500, 100), 2);
    assert_eq!(cap_samples(4, 100, 1500), 2);
    assert_eq!(cap_samples(3, 0, 0), 3);
    for w in [1usize, 7, 512, 1023, 1024, 1025, 2048, 4095, 4096] {
        for req in 0..6usize {
            let s = cap_samples(req, w, 1);
            assert!(s >= 1 && s * w <= MAX_IMAGE_DIM, "w={w} req={req} s={s}");
        }
    }
}

#[test]
fn every_tool_name_is_dispatchable() {
    let names = [
        ("screenshot", Tool::Screenshot),
        ("export", Tool::Export),
        ("eval", Tool::Eval),
        ("measure", Tool::Measure),
        ("run_script", Tool::RunScript),
        ("validate", Tool::Validate),
        ("get_scene", Tool::GetScene),
        ("undo_script", Tool::UndoScript),
        ("help", Tool::Help),
    ];
    for (n, t) in names {
        assert_eq!(tool_by_name(n), Some(t));
    }
    assert_eq!(tool_by_name("nope"), None);
    assert_eq!(tool_by_name("Export"), None);
    assert_eq!(tool_by_name(""), None);
}

#[test]
fn build_axis_names() {
    assert_eq!(build_axis("x"), BuildAxis::PlusX);
    assert_eq!(build_axis(" +x "), BuildAxis::PlusX);
    assert_eq!(build_axis("-x"), BuildAxis::MinusX);
    assert_eq!(build_axis("y"), BuildAxis::PlusY);
    assert_eq!(build_axis("+y\n"), BuildAxis::PlusY);
    assert_eq!(build_axis("-y"), BuildAxis::MinusY);
    assert_eq!(build_axis("-z"), BuildAxis::MinusZ);
    assert_eq!(build_axis("z"), BuildAxis::PlusZ);
    assert_eq!(build_axis("+z"), BuildAxis::PlusZ);
    assert_eq!(build_axis("up"), BuildAxis::PlusZ);
    assert_eq!(build_axis("   "), BuildAxis::PlusZ);
    assert_eq!(build_axis("- x"), BuildAxis::PlusZ);
}

#[test]
fn undo_is_single_level() {
    let mut h = SceneHistory::new(1u32);
    assert!(!h.can_undo());
    assert!(!h.undo(), "nothing to undo before any script");
    h.commit(2, "two".to_string());
    assert_eq!(h.scene, 2);
    assert_eq!(h.script.as_deref(), Some("two"));
    assert!(h.can_undo());
    h.commit(3, "three".to_string());
    assert!(h.undo());
    assert_eq!(h.scene, 2);
    assert_eq!(h.script.as_deref(), Some("two"));
    assert!(!h.can_undo());
    assert!(!h.undo(), "undo is single-level");
    assert_eq!(h.scene, 2);
}

#[test]
fn undo_of_the_first_script_returns_to_the_default_scene() {
    let mut h = SceneHistory::new("default");
    h.commit("sphere", "{\"op\":\"sphere\"}".to_string());
    assert!(h.undo());
    assert_eq!(h.scene, "default");
    assert_eq!(h.script, None);
}

#[test]
fn read_only_tools_declare_read_only_hint() {
    for name in ["eval", "validate", "get_scene", "help", "screenshot", "measure"] {
        let h = lib::session::tool_hints(name);
        assert!(h.read_only, "{name} must be read-only");
        assert!(!h.destructive && h.idempotent, "{name}");
        assert_ne!(h.title, name);
    }
}

#[test]
fn state_mutating_tools_declare_not_read_only() {
    for name in ["run_script", "undo_script"] {
        let h = lib::session::tool_hints(name);
        assert!(!h.read_only && h.destructive && !h.idempotent, "{name}");
    }
    let e = lib::session::tool_hints("export");
    assert!(!e.read_only && !e.destructive && e.idempotent, "export is additive and idempotent");
    assert_eq!(e.title, "Export the mesh to a file");
}

#[test]
fn unknown_tools_fall_back_to_their_name_and_the_cautious_hints() {
    let h = lib::session::tool_hints("frobnicate");
    assert_eq!(h.title, "frobnicate");
    assert!(!h.read_only && h.destructive && !h.idempotent);
}

#[test]
fn samples_are_capped_by_the_supersampled_size() {
    assert_eq!(cap_samples(4, 2048, 2048), 2);
    assert_eq!(cap_samples(4, 512, 4096), 1);
    assert_eq!(cap_samples(4, 1024, 1024), 4);
}

#[test]
fn tool_catalogue_lists_every_tool_with_its_parameters() {
    let defs = tool_defs();
    let names: Vec<&str> = defs.iter().map(|d| d.name.as_str()).collect();
    assert_eq!(
        names,
        vec!["screenshot", "export", "eval", "measure", "run_script", "validate", "get_scene", "undo_script", "help"]
    );
    for d in &defs {
        assert!(tool_by_name(&d.name).is_some(), "{} must be callable", d.name);
        assert!(!d.description.is_empty());
    }
    assert_eq!(defs[0].description, SCREENSHOT_ABOUT);
    let shot: Vec<(&str, &str, bool)> =
        defs[0].params.iter().map(|p| (p.name.as_str(), p.kind.as_str(), p.required)).collect();
    assert_eq!(
        shot,
        vec![
            ("view", "string", false),
            ("width", "integer", false),
            ("height", "integer", false),
            ("resolution", "integer", false),
            ("samples", "integer", false),
            ("axes", "boolean", false),
            ("projection", "string", false),
        ]
    );
    let eval: Vec<(&str, &str, bool)> =
        defs[2].params.iter().map(|p| (p.name.as_str(), p.kind.as_str(), p.required)).collect();
    assert_eq!(eval, vec![("x", "number", true), ("y", "number", true), ("z", "number", true)]);
    let measure: Vec<(&str, bool)> = defs[3].params.iter().map(|p| (p.name.as_str(), p.required)).collect();
    assert_eq!(measure, vec![("from", true), ("dir", true), ("max_distance", false)]);
    let run: Vec<(&str, bool)> = defs[4].params.iter().map(|p| (p.name.as_str(), p.required)).collect();
    assert_eq!(run, vec![("script", true), ("resolution", false)]);
    assert_eq!(defs[5].params.len(), 5);
    assert_eq!(defs[5].params[4].name, "build_dir");
    assert!(defs[6].params.is_empty() && defs[7].params.is_empty() && defs[8].params.is_empty());
    assert_eq!(defs[0].params[0].description, "Camera: front|back|right|left|top|bottom|iso (default: iso)");
}

#[test]
fn screenshot_views_and_projections_are_checked() {
    let views = ["front", "back", "right", "left", "top", "bottom", "iso"];
    for (i, v) in views.iter().enumerate() {
        assert_eq!(view_index(v), Ok(i));
    }
    assert_eq!(
        view_index("Iso"),
        Err("unknown view 'Iso'; valid views: front, back, right, left, top, bottom, iso".to_string())
    );
    assert_eq!(projection_is_ortho("perspective"), Ok(false));
    assert_eq!(projection_is_ortho("orthographic"), Ok(true));
    assert_eq!(
        projection_is_ortho("ortho"),
        Err("unknown projection 'ortho'; valid: perspective, orthographic".to_string())
    );
}
