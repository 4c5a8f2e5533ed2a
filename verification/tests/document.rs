use aircraft_core::diagnostic::{contains_error, first_error, Code, Diagnostic, Severity};
use aircraft_core::eval::EvalError;
use aircraft_core::panels::{plan_panel_tangencies, tangencies_usable, PanelPlan, PlannedTangent, TangentSource};
use aircraft_core::engine::{
    MeshJobError,
    admit_job, apply_to_document, is_valid_parameter_id, open_document, resolve_seeds, stage_patch, unknown_component, MeshArtifact, Patch, Snapshot, TransactionId,
};
use aircraft_core::graph::{build, Graph};
use aircraft_core::mesh::{validate_topology, FaceSource, MeshFormat, MeshValidation};
use aircraft_core::model::{
    entries_ascend, station_path, AircraftDefinition, Airfoil, Axes, Axis, CenterlineTreatment, Component, CoordinateOrigin,
    CoordinateSystem, Frame, FrameAxes, Interface, OriginKind, Position, SourceSide, Station, StationTangency,
    StationTangencySide, Symmetry, SymmetryPlane, TrailingEdge, TypedValue, Wing, WingRole, SCHEMA_ID,
};
use aircraft_core::node::{FieldKind, ValueSource};
use aircraft_core::semantic::{admit_document, validate};
use aircraft_core::units::{AngleUnit, ForceUnit, LengthUnit, MassUnit, PressureUnit, UnitSystem};

fn num(value: f64) -> TypedValue {
    TypedValue::number(value.to_bits())
}

fn param(id: &str) -> TypedValue {
    TypedValue::param(id.to_string())
}

fn station(id: &str, position: [TypedValue; 3], chord: TypedValue, twist: TypedValue, te: TrailingEdge) -> Station {
    let [x, y, z] = position;
    Station {
        id: id.to_string(),
        position: Position { x, y, z },
        chord,
        twist,
        airfoil: "naca0012".to_string(),
        trailing_edge: Some(te),
        tangency: None,
    }
}

/// A cranked wing: kink = root + (0.8, -3.2, 0.1), tip = kink + (1.4, -4.1, 0.35).
fn example() -> AircraftDefinition {
    let parameters: Vec<(String, f64)> = vec![
        ("wing.kinkChord".into(), 1.5),
        ("wing.kinkToTip.dx".into(), 1.4),
        ("wing.kinkToTip.dy".into(), -4.1),
        ("wing.kinkToTip.dz".into(), 0.35),
        ("wing.rootChord".into(), 2.1),
        ("wing.rootToKink.dx".into(), 0.8),
        ("wing.rootToKink.dy".into(), -3.2),
        ("wing.rootToKink.dz".into(), 0.1),
        ("wing.rootTwist".into(), 1.5),
        ("wing.tipChord".into(), 0.9),
    ];
    let stations = vec![
        station(
            "root",
            [num(0.0), num(0.0), num(0.0)],
            param("wing.rootChord"),
            param("wing.rootTwist"),
            TrailingEdge::Absolute { thickness: num(0.008) },
        ),
        station(
            "kink",
            [
                TypedValue::expression("@station.root.position.x + @param.wing.rootToKink.dx"),
                TypedValue::expression("@station.root.position.y + @param.wing.rootToKink.dy"),
                TypedValue::expression("@station.root.position.z + @param.wing.rootToKink.dz"),
            ],
            param("wing.kinkChord"),
            num(0.0),
            TrailingEdge::Sharp,
        ),
        station(
            "tip",
            [
                TypedValue::expression("@station.kink.position.x + @param.wing.kinkToTip.dx"),
                TypedValue::expression("@station.kink.position.y + @param.wing.kinkToTip.dy"),
                TypedValue::expression("@station.kink.position.z + @param.wing.kinkToTip.dz"),
            ],
            param("wing.tipChord"),
            num(-1.0),
            TrailingEdge::ChordFraction { value: num(0.006) },
        ),
    ];
    let wing = Wing {
        id: "main-wing".to_string(),
        role: WingRole::Main,
        frame: Frame { origin: Position { x: num(0.0), y: num(0.0), z: num(0.0) }, axes: FrameAxes::InheritAircraft },
        symmetry: Symmetry {
            enabled: true,
            plane: SymmetryPlane::LocalXz,
            source_side: SourceSide::NegativeLocalY,
            centerline_treatment: CenterlineTreatment::Weld,
        },
        stations,
        interfaces: vec![("root-attachment".to_string(), Interface::StationPlane { station: "root".to_string() })],
    };
    AircraftDefinition {
        schema: SCHEMA_ID.to_string(),
        id: "cranked-wing-study-001".to_string(),
        name: "Cranked wing study".to_string(),
        units: UnitSystem {
            length: LengthUnit::Meters,
            angle: AngleUnit::Degrees,
            mass: MassUnit::Kilograms,
            force: ForceUnit::Newtons,
            pressure: PressureUnit::Pascals,
        },
        unit_system_locked: true,
        coordinate_system: CoordinateSystem {
            axes: Axes { x: Axis::Aft, y: Axis::Starboard, z: Axis::Up },
            origin: CoordinateOrigin { kind: OriginKind::NamedDatum, name: "nose".to_string() },
        },
        parameters: parameters.into_iter().map(|(id, v)| (id, v.to_bits())).collect(),
        airfoils: vec![("naca0012".to_string(), Airfoil::Naca4 { code: "0012".to_string() })],
        components: vec![Component::Wing(wing)],
        analysis_cases: vec![],
    }
}

fn wing_mut(doc: &mut AircraftDefinition) -> &mut Wing {
    match &mut doc.components[0] {
        Component::Wing(wing) => wing,
    }
}

fn built(doc: &AircraftDefinition) -> Graph {
    let (graph, warnings) = build(doc).unwrap();
    assert!(warnings.is_empty(), "unexpected warnings: {warnings:?}");
    graph
}

fn has_code(diagnostics: &[Diagnostic], code: Code) -> bool {
    diagnostics.iter().any(|d| d.code == code)
}

#[test]
fn expression_cycles_are_rejected_with_the_chain() {
    let mut doc = example();
    let wing = wing_mut(&mut doc);
    wing.stations[0].position.x = TypedValue::expression("@station.tip.position.x + 1");
    let errors = build(&doc).err().expect("cycle must be rejected");
    assert!(
        errors
            .iter()
            .any(|d| d.code == Code::CycleDetected && d.message.contains("root.position.x")),
        "expected a cycle chain naming the root, got: {errors:?}"
    );
}

#[test]
fn unknown_parameter_references_are_rejected() {
    let mut doc = example();
    let wing = wing_mut(&mut doc);
    wing.stations[2].chord = TypedValue::expression("@param.does.not.exist + 1");
    let errors = build(&doc).err().expect("unknown parameter must be rejected");
    assert!(has_code(&errors, Code::UnknownReference));
}

#[test]
fn unknown_station_references_are_rejected() {
    let mut doc = example();
    let wing = wing_mut(&mut doc);
    wing.stations[2].chord = TypedValue::expression("@station.missing.chord");
    let errors = build(&doc).err().expect("unknown station must be rejected");
    assert!(has_code(&errors, Code::UnknownReference));
}

#[test]
fn an_angle_parameter_cannot_feed_a_length_field() {
    let mut doc = example();
    let wing = wing_mut(&mut doc);
    wing.stations[0].chord = TypedValue::param("wing.rootTwist".to_string());
    let errors = build(&doc).err().expect("angle parameter as chord must be rejected");
    assert!(has_code(&errors, Code::DimensionMismatch), "expected a dimension mismatch, got: {errors:?}");
}

#[test]
fn unreferenced_parameters_are_warnings() {
    let mut doc = example();
    doc.parameters.push(("unused.things".to_string(), 5.0f64.to_bits()));
    let (_, warnings) = build(&doc).unwrap();
    assert!(warnings
        .iter()
        .any(|d| d.severity == Severity::Warning && d.message.contains("unused.things")));
}

#[test]
fn trailing_edge_values_become_nodes() {
    let doc = example();
    let graph = built(&doc);
    let root_te = graph
        .station_field_node(0, 0, FieldKind::TrailingEdgeThickness)
        .expect("root has an absolute trailing edge");
    let tip_te = graph
        .station_field_node(0, 2, FieldKind::TrailingEdgeFraction)
        .expect("tip has a chord-fraction trailing edge");
    assert!(matches!(graph.nodes[root_te].source, ValueSource::Literal(bits) if bits == 0.008f64.to_bits()));
    assert!(matches!(graph.nodes[tip_te].source, ValueSource::Literal(bits) if bits == 0.006f64.to_bits()));

    // The sharp kink trailing edge produces no node.
    assert!(graph.station_field_node(0, 1, FieldKind::TrailingEdgeThickness).is_none());
}

#[test]
fn station_subject_and_path_are_traceable() {
    let doc = example();
    let graph = built(&doc);
    let kink_x = graph.station_field_node(0, 1, FieldKind::PositionX).unwrap();
    let node = &graph.nodes[kink_x];
    assert_eq!(node.path, "components/0/stations/1/position/x");
    assert_eq!(node.subject, "main-wing / station kink / position x");
}

#[test]
fn editing_a_parameter_reaches_exactly_its_descendants() {
    let doc = example();
    let graph = built(&doc);
    let seed = graph.parameter_node("wing.rootToKink.dx").unwrap();
    let kink_x = graph.station_field_node(0, 1, FieldKind::PositionX).unwrap();
    let tip_x = graph.station_field_node(0, 2, FieldKind::PositionX).unwrap();
    let mut expected = vec![seed, kink_x, tip_x];
    expected.sort();
    assert_eq!(graph.descendants(&[seed]), expected);
    assert_eq!(graph.descendants(&[]), Vec::<usize>::new());
}

#[test]
fn the_evaluation_order_lists_dependencies_first() {
    let doc = example();
    let graph = built(&doc);
    assert_eq!(graph.order.len(), graph.nodes.len());
    let mut seen = vec![false; graph.nodes.len()];
    for &node in &graph.order {
        assert!(!seen[node], "node listed twice");
        for &dep in &graph.nodes[node].deps {
            assert!(seen[dep], "dependency after its consumer");
        }
        seen[node] = true;
    }
    assert_eq!(graph.consumers.len(), graph.nodes.len());
}

#[test]
fn parameters_and_frame_origins_have_nodes() {
    let doc = example();
    let graph = built(&doc);
    assert_eq!(graph.parameter_node("wing.kinkChord"), Some(0));
    assert_eq!(graph.parameter_node("wing.tipChord"), Some(9));
    assert_eq!(graph.parameter_node("nope"), None);
    assert!(graph.frame_origin_node(0, 0).is_some());
    assert!(graph.frame_origin_node(0, 3).is_none());
    assert!(graph.frame_origin_node(1, 0).is_none());
    assert!(graph.station_field_node(0, 3, FieldKind::Chord).is_none());
}

#[test]
fn the_example_passes_semantic_validation() {
    assert!(validate(&example()).is_empty());
}

#[test]
fn semantic_validation_reports_each_broken_rule() {
    let mut doc = example();
    doc.schema = "something-else".to_string();
    doc.unit_system_locked = false;
    {
        let wing = wing_mut(&mut doc);
        wing.stations[2].id = "kink".to_string();
        wing.stations[1].airfoil = "missing-airfoil".to_string();
        wing.interfaces.push(("tip-attachment".to_string(), Interface::StationPlane { station: "tip".to_string() }));
    }
    let diagnostics = validate(&doc);
    let codes: Vec<Code> = diagnostics.iter().map(|d| d.code).collect();
    assert_eq!(
        codes,
        vec![
            Code::SchemaViolation,
            Code::InvalidUnits,
            Code::UnknownReference,
            Code::DuplicateIdentifier,
            Code::UnknownReference,
        ]
    );
    assert_eq!(
        diagnostics[0].message,
        "unknown document schema \"something-else\"; expected \"aircraft-definition/v0.1\""
    );
    assert_eq!(diagnostics[3].message, "duplicate station id \"kink\" in wing \"main-wing\"");
    assert_eq!(diagnostics[3].path.as_deref(), Some("components/0/stations/2/id"));
    assert_eq!(diagnostics[3].subject.as_deref(), Some("component main-wing / station kink"));
    assert_eq!(
        diagnostics[4].message,
        "interface \"tip-attachment\" references station \"tip\" which is not defined in wing \"main-wing\""
    );
}

#[test]
fn station_tangency_rules_are_enforced() {
    let mut doc = example();
    {
        let wing = wing_mut(&mut doc);
        wing.stations[0].tangency = Some(StationTangency {
            left: None,
            right: Some(StationTangencySide { auto: true, direction: None, strength: 1.0f64.to_bits() }),
        });
        wing.stations[2].tangency = Some(StationTangency {
            left: Some(StationTangencySide {
                auto: true,
                direction: Some([1.0f64.to_bits(), 0, 0]),
                strength: 11.0f64.to_bits(),
            }),
            right: Some(StationTangencySide { auto: false, direction: None, strength: (-0.0f64).to_bits() }),
        });
    }
    let messages: Vec<String> = validate(&doc).into_iter().map(|d| d.message).collect();
    assert_eq!(
        messages,
        vec![
            "'right' (arrival) is not valid on the root station; use 'left' (departure)".to_string(),
            "'left' (departure) is not valid on the tip station; use 'right' (arrival)".to_string(),
            "left cannot combine 'auto' with an explicit direction".to_string(),
            "left strength must lie in [0, 10]".to_string(),
            "right needs a direction or \"auto\": true".to_string(),
        ]
    );
}

#[test]
fn station_paths_name_component_and_station() {
    assert_eq!(station_path(0, 2), "components/0/stations/2");
    assert_eq!(station_path(12, 305), "components/12/stations/305");
}

#[test]
fn set_parameter_patches_only_known_ids() {
    let mut doc = example();
    let before = doc.parameters.clone();
    let error = apply_to_document(
        &mut doc,
        &Patch::SetParameter { id: "does.not.exist".to_string(), value: 1.0f64.to_bits() },
    )
    .unwrap_err();
    assert_eq!(error.code, Code::UnknownReference);
    assert_eq!(error.message, "unknown parameter \"does.not.exist\"");
    assert_eq!(error.path.as_deref(), Some("parameters/does.not.exist"));
    assert_eq!(doc.parameters, before);

    apply_to_document(&mut doc, &Patch::SetParameter { id: "wing.rootToKink.dx".to_string(), value: 1.3f64.to_bits() })
        .unwrap();
    assert_eq!(doc.parameters[5], ("wing.rootToKink.dx".to_string(), 1.3f64.to_bits()));
    assert_eq!(doc.parameters.len(), before.len());
}

#[test]
fn add_parameter_creates_a_usable_scalar() {
    let mut doc = example();
    apply_to_document(&mut doc, &Patch::AddParameter { id: "wing.customTwist".to_string(), value: 2.0f64.to_bits() })
        .unwrap();
    let ids: Vec<&str> = doc.parameters.iter().map(|(id, _)| id.as_str()).collect();
    let mut sorted = ids.clone();
    sorted.sort();
    assert_eq!(ids, sorted, "parameters stay in key order");
    assert!(ids.contains(&"wing.customTwist"));

    {
        let wing = wing_mut(&mut doc);
        wing.stations[1].twist = TypedValue::param("wing.customTwist".to_string());
    }
    let (graph, warnings) = build(&doc).unwrap();
    assert!(warnings.is_empty());
    assert!(graph.parameter_node("wing.customTwist").is_some());

    let duplicate =
        apply_to_document(&mut doc, &Patch::AddParameter { id: "wing.customTwist".to_string(), value: 0 }).unwrap_err();
    assert_eq!(duplicate.code, Code::DuplicateIdentifier);
    for bad in ["BadId", "2cool", ""] {
        let error = apply_to_document(&mut doc, &Patch::AddParameter { id: bad.to_string(), value: 0 })
            .err()
            .unwrap_or_else(|| panic!("{bad} must be rejected"));
        assert_eq!(error.code, Code::SchemaViolation);
    }
}

#[test]
fn parameter_ids_follow_the_schema_pattern() {
    assert!(is_valid_parameter_id("wing.root_chord-2"));
    assert!(is_valid_parameter_id("a"));
    assert!(!is_valid_parameter_id("Wing"));
    assert!(!is_valid_parameter_id("wing chord"));
    assert!(!is_valid_parameter_id(""));
}

#[test]
fn station_field_patches_check_targets_and_modes() {
    let mut doc = example();
    let error = apply_to_document(
        &mut doc,
        &Patch::SetStationField { component_index: 3, station_index: 0, field: FieldKind::Chord, value: num(1.0) },
    )
    .unwrap_err();
    assert_eq!(error.message, unknown_component(3).message);
    assert_eq!(error.message, "component index 3 is outside the document");

    let error = apply_to_document(
        &mut doc,
        &Patch::SetStationField { component_index: 0, station_index: 7, field: FieldKind::Chord, value: num(1.0) },
    )
    .unwrap_err();
    assert_eq!(error.message, "station index 7 is outside the wing");

    let error = apply_to_document(
        &mut doc,
        &Patch::SetStationField {
            component_index: 0,
            station_index: 1,
            field: FieldKind::TrailingEdgeThickness,
            value: num(0.01),
        },
    )
    .unwrap_err();
    assert_eq!(error.code, Code::InvalidTrailingEdge);

    apply_to_document(
        &mut doc,
        &Patch::SetStationField { component_index: 0, station_index: 2, field: FieldKind::Chord, value: num(0.7) },
    )
    .unwrap();
    let tip = match &doc.components[0] {
        Component::Wing(wing) => &wing.stations[2],
    };
    assert!(matches!(tip.chord, TypedValue::Number(bits) if bits == 0.7f64.to_bits()));
}

#[test]
fn patches_seed_the_nodes_they_touch() {
    let doc = example();
    let graph = built(&doc);
    let seeds = resolve_seeds(&graph, &Patch::SetParameter { id: "wing.tipChord".to_string(), value: 0 });
    assert_eq!(seeds, vec![graph.parameter_node("wing.tipChord").unwrap()]);
    let seeds = resolve_seeds(&graph, &Patch::SetParameter { id: "nope".to_string(), value: 0 });
    assert!(seeds.is_empty());
    let seeds = resolve_seeds(
        &graph,
        &Patch::SetStationField { component_index: 0, station_index: 1, field: FieldKind::Twist, value: num(2.0) },
    );
    assert_eq!(seeds, vec![graph.station_field_node(0, 1, FieldKind::Twist).unwrap()]);
}

#[test]
fn selection_traces_back_to_source_stations() {
    let artifact = MeshArtifact {
        revision: 4,
        wing_id: "main-wing".to_string(),
        station_ids: vec!["root".to_string(), "kink".to_string(), "tip".to_string()],
        faces: vec![
            FaceSource::Panel { lower_station: 0, upper_station: 1, mirrored: false },
            FaceSource::TipCap { station: 2, mirrored: true },
            FaceSource::RootCap,
            FaceSource::Panel { lower_station: 1, upper_station: 5, mirrored: false },
        ],
    };
    let trace = artifact.trace(0).unwrap();
    assert_eq!(trace.wing_id, "main-wing");
    assert_eq!(trace.stations, vec!["root".to_string(), "kink".to_string()]);
    assert!(!trace.mirrored);
    assert_eq!(trace.description, "loft panel between stations root and kink");

    let trace = artifact.trace(1).unwrap();
    assert!(trace.mirrored);
    assert_eq!(trace.description, "tip cap of station tip");

    let trace = artifact.trace(2).unwrap();
    assert!(trace.stations.is_empty());

    let trace = artifact.trace(3).unwrap();
    assert_eq!(trace.stations[1], "station 5");

    let error = artifact.trace(4).unwrap_err();
    assert_eq!(error.code, Code::MeshFailure);
    assert_eq!(error.message, "triangle index 4 is outside the mesh");
}

#[test]
fn a_closed_tetrahedron_is_sound() {
    let triangles = vec![[0, 2, 1], [0, 1, 3], [1, 2, 3], [2, 0, 3]];
    let validation = validate_topology(&triangles);
    assert_eq!(
        validation,
        MeshValidation { closed: true, manifold: true, oriented: true, degenerate_triangles: 0 }
    );
    assert!(validation.is_sound());
    assert!(validation.diagnostics("wing").is_empty());
}

#[test]
fn open_flipped_and_degenerate_meshes_are_reported() {
    let open = validate_topology(&vec![[0, 1, 2]]);
    assert!(!open.closed);
    assert!(open.manifold && open.oriented);

    let flipped = validate_topology(&vec![[0, 1, 2], [0, 1, 3]]);
    assert!(!flipped.oriented);

    let fan = validate_topology(&vec![[0, 1, 2], [1, 0, 3], [0, 1, 4]]);
    assert!(!fan.manifold);

    let degenerate = validate_topology(&vec![[0, 0, 1], [2, 3, 3]]);
    assert_eq!(degenerate.degenerate_triangles, 2);

    let diagnostics =
        MeshValidation { closed: false, manifold: false, oriented: false, degenerate_triangles: 3 }.diagnostics("wing");
    let messages: Vec<&str> = diagnostics.iter().map(|d| d.message.as_str()).collect();
    assert_eq!(
        messages,
        vec!["mesh has non-manifold edges", "mesh face orientation is inconsistent", "mesh has 3 degenerate triangles"]
    );
    assert!(diagnostics.iter().all(|d| d.subject.as_deref() == Some("wing")));
}

#[test]
fn mesh_formats_name_their_extensions() {
    assert_eq!(MeshFormat::StlBinary.extension(), "stl");
    assert_eq!(MeshFormat::StlAscii.extension(), "stl");
    assert_eq!(MeshFormat::Obj.extension(), "obj");
    assert_eq!(MeshFormat::Glb.extension(), "glb");
}

#[test]
fn documents_are_admitted_only_without_errors() {
    let (doc, diagnostics) = admit_document(example(), vec![]).unwrap();
    assert!(diagnostics.is_empty());
    assert_eq!(doc.id, "cranked-wing-study-001");

    let warning = Diagnostic::warning(Code::UnknownReference, "note".to_string());
    let (_, diagnostics) = admit_document(example(), vec![warning]).unwrap();
    assert_eq!(diagnostics.len(), 1);

    let shape = Diagnostic::error(Code::SchemaViolation, "bad shape".to_string());
    let mut broken = example();
    broken.unit_system_locked = false;
    let errors = admit_document(broken, vec![shape]).unwrap_err();
    assert_eq!(errors.len(), 1, "semantic checks do not run after a shape error");

    let mut broken = example();
    broken.unit_system_locked = false;
    let errors = admit_document(broken, vec![]).unwrap_err();
    assert_eq!(errors[0].code, Code::InvalidUnits);
}

#[test]
fn error_lookup_finds_the_first_error() {
    let list = vec![
        Diagnostic::warning(Code::UnknownReference, "w".to_string()),
        Diagnostic::error(Code::NonPositiveChord, "a".to_string()),
        Diagnostic::error(Code::CycleDetected, "b".to_string()),
    ];
    assert_eq!(first_error(&list), Some(1));
    assert!(contains_error(&list));
    assert_eq!(first_error(&list[..1].to_vec()), None);
    assert!(!contains_error(&vec![]));
}

#[test]
fn staging_a_patch_rebuilds_and_reports_reach() {
    let mut candidate = example();
    let patch = Patch::SetParameter { id: "wing.rootToKink.dx".to_string(), value: 1.3f64.to_bits() };
    apply_to_document(&mut candidate, &patch).unwrap();
    let staged = stage_patch(&candidate, &patch).unwrap();
    assert!(staged.diagnostics.is_empty());
    let kink_x = staged.graph.station_field_node(0, 1, FieldKind::PositionX).unwrap();
    let tip_x = staged.graph.station_field_node(0, 2, FieldKind::PositionX).unwrap();
    let seed = staged.graph.parameter_node("wing.rootToKink.dx").unwrap();
    let mut expected = vec![seed, kink_x, tip_x];
    expected.sort();
    assert_eq!(staged.affected, expected);

    let mut cyclic = example();
    wing_mut(&mut cyclic).stations[0].position.x = TypedValue::expression("@station.tip.position.x + 1");
    let error = stage_patch(&cyclic, &patch).err().expect("a cycle cannot be staged");
    assert_eq!(error.code, Code::CycleDetected);
}

#[test]
fn evaluation_errors_read_as_messages() {
    assert_eq!(EvalError::DivideByZero.to_string(), "division by zero");
    assert_eq!(EvalError::NonFinite.to_string(), "non-finite result");
    assert_eq!(EvalError::Domain("sqrt of a negative number".to_string()).to_string(), "sqrt of a negative number");
    assert_eq!(
        EvalError::Reference("kink.position.x".to_string()).to_string(),
        "reference failed to evaluate: kink.position.x"
    );
}

fn side(auto: bool, direction: Option<[f64; 3]>, strength: f64) -> StationTangencySide {
    StationTangencySide {
        auto,
        direction: direction.map(|d| [d[0].to_bits(), d[1].to_bits(), d[2].to_bits()]),
        strength: strength.to_bits(),
    }
}

#[test]
fn panel_tangencies_follow_the_station_sides() {
    let mut doc = example();
    {
        let wing = wing_mut(&mut doc);
        wing.stations[0].tangency =
            Some(StationTangency { left: Some(side(false, Some([0.9, -0.3, 0.05]), 0.5)), right: None });
        wing.stations[1].tangency =
            Some(StationTangency { left: Some(side(true, None, 0.6)), right: Some(side(true, None, 0.8)) });
    }
    let wing = match &doc.components[0] {
        Component::Wing(wing) => wing,
    };
    assert!(tangencies_usable(wing));
    let plans = plan_panel_tangencies(wing);
    assert_eq!(plans.len(), 2);
    let explicit = [0.9f64.to_bits(), (-0.3f64).to_bits(), 0.05f64.to_bits()];
    assert_eq!(
        plans[0],
        PanelPlan {
            start: Some(PlannedTangent { source: TangentSource::Direction(explicit), strength: 0.5f64.to_bits() }),
            end: Some(PlannedTangent { source: TangentSource::MeanSweep(0, 1), strength: 0.8f64.to_bits() }),
        }
    );
    assert_eq!(
        plans[1],
        PanelPlan {
            start: Some(PlannedTangent { source: TangentSource::MeanSweep(0, 1), strength: 0.6f64.to_bits() }),
            end: None,
        }
    );
}

#[test]
fn an_auto_side_adopts_the_explicit_other_side() {
    let mut doc = example();
    {
        let wing = wing_mut(&mut doc);
        wing.stations[1].tangency = Some(StationTangency {
            left: Some(side(true, None, 1.0)),
            right: Some(side(false, Some([1.0, 0.0, 0.0]), 0.7)),
        });
        wing.stations[2].tangency = Some(StationTangency { left: None, right: Some(side(true, None, 0.9)) });
    }
    let wing = match &doc.components[0] {
        Component::Wing(wing) => wing,
    };
    let plans = plan_panel_tangencies(wing);
    let explicit = [1.0f64.to_bits(), 0, 0];
    assert_eq!(
        plans[1].start,
        Some(PlannedTangent { source: TangentSource::Direction(explicit), strength: 0.7f64.to_bits() })
    );
    assert_eq!(plans[0].end, Some(PlannedTangent { source: TangentSource::Direction(explicit), strength: 0.7f64.to_bits() }));
    assert_eq!(plans[1].end, Some(PlannedTangent { source: TangentSource::Sweep(1), strength: 0.9f64.to_bits() }));
    assert_eq!(plans[0].start, None);
}

#[test]
fn unusable_tangencies_are_detected() {
    let mut doc = example();
    wing_mut(&mut doc).stations[2].tangency = Some(StationTangency { left: Some(side(true, None, 1.0)), right: None });
    let wing = match &doc.components[0] {
        Component::Wing(wing) => wing,
    };
    assert!(!tangencies_usable(wing));
    let mut doc = example();
    wing_mut(&mut doc).stations[1].tangency = Some(StationTangency { left: Some(side(false, None, 1.0)), right: None });
    let wing = match &doc.components[0] {
        Component::Wing(wing) => wing,
    };
    assert!(!tangencies_usable(wing));
}

#[test]
fn document_maps_are_checked_for_key_order() {
    let doc = example();
    assert!(doc.keys_in_order());
    let mut shuffled = example();
    shuffled.parameters.swap(0, 1);
    assert!(!shuffled.keys_in_order());
    let mut repeated = example();
    repeated.parameters[1].0 = repeated.parameters[0].0.clone();
    assert!(!repeated.keys_in_order());
    assert!(entries_ascend(&vec![("a".to_string(), 1), ("b".to_string(), 2), ("ba".to_string(), 3)]));
    assert!(entries_ascend::<u8>(&vec![]));
}

#[test]
fn stale_and_cancelled_jobs_never_run() {
    assert!(matches!(admit_job(true, 3, None), Err(MeshJobError::Cancelled)));
    assert!(matches!(admit_job(true, 3, Some(3)), Err(MeshJobError::Cancelled)));
    assert!(matches!(admit_job(false, 3, Some(99)), Err(MeshJobError::Stale { current: 3, expected: 99 })));
    assert!(admit_job(false, 3, Some(3)).is_ok());
    assert!(admit_job(false, 3, None).is_ok());
}

#[test]
fn opening_a_document_validates_then_builds() {
    let (graph, diagnostics) = open_document(&example()).unwrap();
    assert!(diagnostics.is_empty());
    assert_eq!(graph.order.len(), graph.nodes.len());

    let mut unlocked = example();
    unlocked.unit_system_locked = false;
    let errors = open_document(&unlocked).err().expect("unlocked units refuse the document");
    assert_eq!(errors[0].code, Code::InvalidUnits);

    let mut dangling = example();
    wing_mut(&mut dangling).stations[2].chord = TypedValue::expression("@param.does.not.exist + 1");
    let errors = open_document(&dangling).err().expect("a dangling reference refuses the document");
    assert!(has_code(&errors, Code::UnknownReference));
}

#[test]
fn stale_and_cancelled_jobs_never_replace_the_preview() {
    // Stale: the caller's revision no longer matches the engine's first revision.
    assert!(matches!(
        admit_job(false, 1, Some(99)),
        Err(MeshJobError::Stale { current: 1, expected: 99 })
    ));
    // Cancelled: the token fires before any work.
    assert!(matches!(admit_job(true, 1, None), Err(MeshJobError::Cancelled)));
}

#[test]
fn editing_a_parameter_recomputes_exactly_its_descendants() {
    let doc = example();
    let graph = built(&doc);
    let seed = graph.parameter_node("wing.rootToKink.dx").unwrap();

    let mut edited = example();
    let patch = Patch::SetParameter { id: "wing.rootToKink.dx".to_string(), value: 1.3f64.to_bits() };
    apply_to_document(&mut edited, &patch).unwrap();
    let staged = stage_patch(&edited, &patch).unwrap();
    assert_eq!(resolve_seeds(&graph, &patch), vec![seed]);

    // The affected set is exactly the parameter, kink x, and tip x: the y and
    // z cascades hang off other parameters.
    let kink_x = graph.station_field_node(0, 1, FieldKind::PositionX).unwrap();
    let tip_x = graph.station_field_node(0, 2, FieldKind::PositionX).unwrap();
    let mut expected = vec![seed, kink_x, tip_x];
    expected.sort();
    assert_eq!(graph.descendants(&[seed]), expected);
    assert_eq!(staged.affected, expected);
}

#[test]
fn unknown_station_airfoil_reference_is_rejected() {
    let mut doc = example();
    wing_mut(&mut doc).stations[0].airfoil = "missing-airfoil".to_string();
    let errors = admit_document(doc, vec![]).expect_err("unknown airfoil must be rejected");
    assert!(errors.iter().any(|d| d.code == Code::UnknownReference));
}

#[test]
fn a_snapshot_is_published_whole_or_kept() {
    let mut snapshot = Snapshot { doc: example(), revision: 1 };
    let mut edited = example();
    edited.id = "edited".to_string();
    let refused = vec![
        Diagnostic::warning(Code::UnknownReference, "w".to_string()),
        Diagnostic::error(Code::NonPositiveChord, "chord".to_string()),
    ];
    assert_eq!(snapshot.publish(edited.clone(), &refused), Err(1));
    assert_eq!(snapshot.revision, 1);
    assert_eq!(snapshot.doc.id, "cranked-wing-study-001");

    let accepted = vec![Diagnostic::warning(Code::UnknownReference, "w".to_string())];
    assert_eq!(snapshot.publish(edited, &accepted), Ok(2));
    assert_eq!(snapshot.revision, 2);
    assert_eq!(snapshot.doc.id, "edited");
}

#[test]
fn the_reported_cycle_is_the_first_one_the_search_meets() {
    let mut doc = example();
    let wing = wing_mut(&mut doc);
    wing.stations[0].position.x = TypedValue::expression("@station.tip.position.x + 1");
    let errors = build(&doc).err().expect("cycle must be rejected");
    assert_eq!(errors.len(), 1);
    assert_eq!(
        errors[0].message,
        "dependency cycle detected: root.position.x -> tip.position.x -> kink.position.x -> root.position.x"
    );
}

#[test]
fn a_patch_result_commits_or_reports_its_first_error() {
    let mut snapshot = Snapshot { doc: example(), revision: 4 };
    let mut edited = example();
    edited.id = "edited".to_string();
    let refused = vec![
        Diagnostic::warning(Code::UnknownReference, "w".to_string()),
        Diagnostic::error(Code::NonPositiveChord, "chord".to_string()),
        Diagnostic::error(Code::CycleDetected, "cycle".to_string()),
    ];
    let result = snapshot.commit(TransactionId(7), edited.clone(), refused, vec!["x".to_string()]);
    assert_eq!(result.transaction, TransactionId(7));
    assert!(!result.committed);
    assert_eq!(result.revision, 4);
    assert_eq!(result.diagnostics.len(), 1);
    assert_eq!(result.diagnostics[0].message, "chord");
    assert!(result.affected.is_empty());
    assert_eq!(snapshot.revision, 4);
    assert_eq!(snapshot.doc.id, "cranked-wing-study-001");

    let result = snapshot.commit(TransactionId(8), edited, vec![], vec!["x".to_string()]);
    assert!(result.committed);
    assert_eq!(result.revision, 5);
    assert!(result.diagnostics.is_empty());
    assert_eq!(result.affected, vec!["x".to_string()]);
    assert_eq!(snapshot.doc.id, "edited");

    let rejected = snapshot.reject(TransactionId(9), Diagnostic::error(Code::Internal, "no".to_string()));
    assert!(!rejected.committed && rejected.revision == 5 && rejected.diagnostics.len() == 1);
}

#[test]
fn an_omitted_trailing_edge_is_sharp() {
    let doc = example();
    let wing = match &doc.components[0] {
        Component::Wing(wing) => wing,
    };
    assert!(matches!(wing.stations[0].trailing_edge(), TrailingEdge::Absolute { thickness: TypedValue::Number(bits) } if bits == 0.008f64.to_bits()));
    assert!(matches!(wing.stations[1].trailing_edge(), TrailingEdge::Sharp));
    let mut bare = wing.stations[1].clone();
    bare.trailing_edge = None;
    assert!(matches!(bare.trailing_edge(), TrailingEdge::Sharp));
}
