use lib::help::{help_text, KADOSCENE_HELP};

#[test]
fn help_documents_evaluator_constraints() {
    let help = help_text();
    assert!(help.contains("< major"), "help must document torus minor < major constraint");
    assert!(help.contains("k: blend radius > 0"), "help must document smooth k > 0 constraint");
    assert!(
        help.contains("MILLIMETERS") && help.contains("1 mm"),
        "help must state the mm unit convention for authoring"
    );
    assert!(help.contains("uniform"), "help must state scale is uniform");
    assert!(
        help.contains("scale_xyz") && help.contains("UNDERESTIMATE"),
        "help must document scale_xyz's conservative-underestimate guarantee"
    );
}

#[test]
fn help_documents_material_and_unit_estimation() {
    let help = KADOSCENE_HELP;
    assert!(
        help.contains("mm³") && help.contains("density"),
        "help must state volume unit (mm³) and the mass formula"
    );
    assert!(help.contains("PLA"), "help must list common filament densities (e.g. PLA)");
    assert!(
        help.to_lowercase().contains("infill"),
        "help must note solid volume is an upper bound (infill caveat)"
    );
}

#[test]
fn help_lists_the_worked_dsl_examples() {
    for src in [
        "chamfer_union(cuboid(1.0, 1.0, 0.3), cylinder(0.4, 1.2), 0.2)",
        "smooth_union(cuboid(1.0, 1.0, 0.3), cylinder(0.4, 1.2), 0.2)",
        "difference(sphere(1.5), cylinder(0.4, 2.0))",
    ] {
        assert!(help_text().contains(src), "DSL example must appear verbatim: {src}");
    }
}
