use lib::export::ExportFormat;

#[test]
fn from_path_dispatches_by_extension() {
    assert_eq!(ExportFormat::from_path("model.glb"), Ok(ExportFormat::Glb));
    assert_eq!(ExportFormat::from_path("model.3mf"), Ok(ExportFormat::ThreeMf));
    assert_eq!(ExportFormat::from_path("model.html"), Ok(ExportFormat::Html));
    assert_eq!(ExportFormat::from_path("model.htm"), Ok(ExportFormat::Html));
    assert_eq!(ExportFormat::from_path("model.stl"), Ok(ExportFormat::Stl));
    assert_eq!(ExportFormat::from_path("model"), Ok(ExportFormat::Stl));
}

#[test]
fn from_path_is_case_insensitive() {
    assert_eq!(ExportFormat::from_path("M.GLB"), Ok(ExportFormat::Glb));
    assert_eq!(ExportFormat::from_path("M.3MF"), Ok(ExportFormat::ThreeMf));
    assert_eq!(ExportFormat::from_path("M.HTML"), Ok(ExportFormat::Html));
    assert_eq!(ExportFormat::from_path("M.Stl"), Ok(ExportFormat::Stl));
}

#[test]
fn unknown_extension_is_rejected_not_silently_written_as_stl() {
    for path in ["model.obj", "model.step", "model.ply", "out.xyz", "a.stl.bak"] {
        let err = ExportFormat::from_path(path)
            .expect_err("an unknown extension must not silently become STL");
        assert!(err.contains(path), "error must name the offending path: {err}");
        for ext in [".stl", ".glb", ".3mf", ".html"] {
            assert!(err.contains(ext), "error must list the supported extension '{ext}': {err}");
        }
    }
}

#[test]
fn supported_extensions_covers_every_writable_format() {
    let listed = ExportFormat::supported_extensions();
    let by_extension = [
        ("stl", ExportFormat::Stl),
        ("glb", ExportFormat::Glb),
        ("3mf", ExportFormat::ThreeMf),
        ("html", ExportFormat::Html),
        ("htm", ExportFormat::Html),
    ];
    for f in [ExportFormat::Stl, ExportFormat::Glb, ExportFormat::ThreeMf, ExportFormat::Html] {
        let has = by_extension
            .iter()
            .any(|(e, known)| *known == f && listed.contains(&format!(".{e}")));
        assert!(has, "{} must appear in supported_extensions()", f.label());
    }
}

#[test]
fn label_matches_format() {
    assert_eq!(ExportFormat::Stl.label(), "STL");
    assert_eq!(ExportFormat::Glb.label(), "GLB");
    assert_eq!(ExportFormat::ThreeMf.label(), "3MF");
    assert_eq!(ExportFormat::Html.label(), "HTML");
}

// ── Further cases ────────────────────────────────────────────────────────────

#[test]
fn supported_extensions_exact_text() {
    assert_eq!(ExportFormat::supported_extensions(), ".stl, .glb, .3mf, .html, .htm");
}

#[test]
fn unsupported_extension_message_exact_text() {
    assert_eq!(
        ExportFormat::from_path("dir/Model.OBJ"),
        Err("unsupported output format '.obj' in 'dir/Model.OBJ'; supported: .stl, .glb, .3mf, \
             .html, .htm. Writing STL bytes under a '.obj' name would make the file \
             misrepresent its own contents."
            .to_string())
    );
}

#[test]
fn path_extension_edge_cases_follow_path_rules() {
    // Empty extension, hidden files, "..", trailing separators and "." components.
    assert_eq!(ExportFormat::from_path("model."), Ok(ExportFormat::Stl));
    assert_eq!(ExportFormat::from_path(".glb"), Ok(ExportFormat::Stl));
    assert_eq!(ExportFormat::from_path("a.glb/.."), Ok(ExportFormat::Stl));
    assert_eq!(ExportFormat::from_path("out.glb/"), Ok(ExportFormat::Glb));
    assert_eq!(ExportFormat::from_path("out.glb/."), Ok(ExportFormat::Glb));
    assert_eq!(ExportFormat::from_path("dir.obj/model"), Ok(ExportFormat::Stl));
    assert_eq!(ExportFormat::from_path("..glb"), Ok(ExportFormat::Glb));
    assert_eq!(ExportFormat::from_path(""), Ok(ExportFormat::Stl));
    assert!(ExportFormat::from_path("x.tar.gz").is_err());
}
