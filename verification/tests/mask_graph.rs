use lumina_core::mask_graph::MaskGraph;
use lumina_core::mask_loader::{
    DecodeFingerprint, MaskDefinition, MaskOperation, MaskReference, MaskStatus, ModelIdentity, VirtualCopy,
};
use lumina_core::masks::{MaskError, MaskPlane};

fn definition(id: &str, operation: MaskOperation, references: Vec<MaskReference>) -> MaskDefinition {
    MaskDefinition {
        id: id.into(),
        status: MaskStatus::Valid,
        source_hash: "h".into(),
        decode_context: DecodeFingerprint { decoder: "d".into(), version: "1".into(), parameters: vec![] },
        model: ModelIdentity { name: "m".into(), version: "1".into(), hash: "h".into(), input_spec_digest: None },
        artifact: None,
        operation,
        references,
        has_prompt: false,
    }
}

fn reference(id: &str) -> MaskReference {
    MaskReference { copy_id: "vc".into(), mask_id: id.into() }
}

fn graph(definitions: Vec<MaskDefinition>, sources: &[(&str, Vec<u16>)]) -> MaskGraph<'static> {
    let copy = Box::leak(Box::new(VirtualCopy { id: "vc".into(), mask_library: definitions, mask_layers: vec![] }));
    let payloads = sources
        .iter()
        .map(|(id, values)| (("vc".to_string(), (*id).to_string()), MaskPlane::new(2, 1, values.clone()).unwrap()))
        .collect();
    MaskGraph::new(std::slice::from_ref(copy), payloads, vec![])
}

fn refs(ids: &[&str]) -> Vec<MaskReference> {
    ids.iter().map(|id| reference(id)).collect()
}

#[test]
fn evaluates_all_operations_and_subtract_rounding() {
    let mut graph = graph(
        vec![
            definition("a", MaskOperation::Source, vec![]),
            definition("b", MaskOperation::Source, vec![]),
            definition("u", MaskOperation::Union, refs(&["a", "b"])),
            definition("i", MaskOperation::Intersect, refs(&["a", "b"])),
            definition("s", MaskOperation::Subtract, refs(&["a", "b"])),
            definition("n", MaskOperation::Invert, refs(&["a"])),
        ],
        &[("a", vec![0, 32768]), ("b", vec![65535, 16384])],
    );
    assert_eq!(graph.evaluate(&reference("u")).unwrap().values, vec![65535, 32768]);
    assert_eq!(graph.evaluate(&reference("i")).unwrap().values, vec![0, 16384]);
    assert_eq!(graph.evaluate(&reference("s")).unwrap().values, vec![0, 24576]);
    assert_eq!(graph.evaluate(&reference("n")).unwrap().values, vec![65535, 32767]);
}

#[test]
fn resolves_cross_copy_and_reports_failures() {
    let source = definition("source", MaskOperation::Source, vec![]);
    let derived = definition(
        "derived",
        MaskOperation::Invert,
        vec![MaskReference { copy_id: "other".into(), mask_id: "source".into() }],
    );
    let other = VirtualCopy { id: "other".into(), mask_library: vec![source], mask_layers: vec![] };
    let target = Box::leak(Box::new(VirtualCopy { id: "vc".into(), mask_library: vec![derived], mask_layers: vec![] }));
    let copies = Box::leak(Box::new(vec![target.clone(), other]));
    let mut graph = MaskGraph::new(
        copies,
        vec![(("other".to_string(), "source".to_string()), MaskPlane::new(1, 1, vec![7]).unwrap())],
        vec![],
    );
    assert_eq!(graph.evaluate(&reference("derived")).unwrap().values, vec![65528]);
    assert!(matches!(MaskPlane::new(2, 1, vec![1]), Err(MaskError::InvalidPlane { .. })));
    assert!(matches!(
        MaskGraph::new(std::slice::from_ref(target), vec![], vec![]).evaluate(&reference("derived")),
        Err(MaskError::MissingMask { .. })
    ));
}

#[test]
fn reports_missing_source_payload() {
    let mut graph = graph(vec![definition("source", MaskOperation::Source, vec![])], &[]);
    assert_eq!(
        graph.evaluate(&reference("source")),
        Err(MaskError::MissingSourcePayload { copy_id: "vc".into(), mask_id: "source".into() })
    );
}

#[test]
fn detects_cycle_during_evaluation() {
    let mut graph = graph(
        vec![
            definition("a", MaskOperation::Invert, refs(&["b"])),
            definition("b", MaskOperation::Invert, refs(&["a"])),
        ],
        &[],
    );
    assert_eq!(graph.evaluate(&reference("a")), Err(MaskError::Cycle { copy_id: "vc".into(), mask_id: "a".into() }));
}

#[test]
fn reports_dimensions_of_referenced_masks() {
    let copy = Box::leak(Box::new(VirtualCopy {
        id: "vc".into(),
        mask_library: vec![
            definition("a", MaskOperation::Source, vec![]),
            definition("b", MaskOperation::Source, vec![]),
            definition("union", MaskOperation::Union, vec![reference("a"), reference("b")]),
        ],
        mask_layers: vec![],
    }));
    let mut graph = MaskGraph::new(
        std::slice::from_ref(copy),
        vec![
            (("vc".to_string(), "a".to_string()), MaskPlane::new(2, 1, vec![1, 2]).unwrap()),
            (("vc".to_string(), "b".to_string()), MaskPlane::new(1, 2, vec![3, 4]).unwrap()),
        ],
        vec![],
    );
    assert_eq!(
        graph.evaluate(&reference("union")),
        Err(MaskError::DimensionMismatch { expected_width: 2, expected_height: 1, actual_width: 1, actual_height: 2 })
    );
}

#[test]
fn rejects_invalid_arity_during_evaluation() {
    let mut graph = graph(vec![definition("subtract", MaskOperation::Subtract, vec![reference("a")])], &[]);
    assert_eq!(
        graph.evaluate(&reference("subtract")),
        Err(MaskError::InvalidArity { copy_id: "vc".into(), mask_id: "subtract".into(), actual: 1 })
    );
}

#[test]
fn subtract_handles_u16_boundaries_without_overflow() {
    let mut graph = graph(
        vec![
            definition("a", MaskOperation::Source, vec![]),
            definition("b", MaskOperation::Source, vec![]),
            definition("subtract", MaskOperation::Subtract, vec![reference("a"), reference("b")]),
        ],
        &[("a", vec![0, u16::MAX]), ("b", vec![u16::MAX, 0])],
    );
    assert_eq!(graph.evaluate(&reference("subtract")).unwrap().values, vec![0, u16::MAX]);
}

#[test]
fn source_with_prompt_and_loaded_plane_prefers_loaded_plane() {
    let mut def = definition("box-source", MaskOperation::Source, vec![]);
    def.has_prompt = true;
    let copy = Box::leak(Box::new(VirtualCopy { id: "vc".into(), mask_library: vec![def], mask_layers: vec![] }));
    let raster = MaskPlane::new(2, 1, vec![u16::MAX, u16::MAX]).unwrap();
    let mut graph = MaskGraph::new(
        std::slice::from_ref(copy),
        vec![(("vc".to_string(), "box-source".to_string()), MaskPlane::new(2, 1, vec![7, 11]).unwrap())],
        vec![(("vc".to_string(), "box-source".to_string()), Ok(raster))],
    );
    assert_eq!(graph.evaluate(&reference("box-source")).unwrap().values, vec![7, 11]);
}

#[test]
fn memoized_dag_executes_each_shared_subtree_once() {
    let mut graph = graph(
        vec![
            definition("s", MaskOperation::Source, vec![]),
            definition("a", MaskOperation::Invert, refs(&["s"])),
            definition("b", MaskOperation::Invert, refs(&["s"])),
            definition("d", MaskOperation::Union, refs(&["a", "b"])),
        ],
        &[("s", vec![100, 65_000])],
    );
    let plane = graph.evaluate(&reference("d")).unwrap();
    assert_eq!(
        plane.values,
        vec![u16::MAX - 100, u16::MAX - 65_000],
        "union of two identical inversions must equal one inversion"
    );
    assert_eq!(graph.last_evaluated_node_count(), 4, "distinct nodes s/a/b/d must each execute exactly once");
    let again = graph.evaluate(&reference("d")).unwrap();
    assert_eq!(again.values, plane.values);
    assert_eq!(graph.last_evaluated_node_count(), 4);
}

#[test]
fn deep_sharing_stays_linear_under_memoization() {
    let levels = 12;
    let mut definitions = vec![definition("m0", MaskOperation::Source, vec![])];
    for k in 1..=levels {
        definitions.push(definition(
            &format!("m{k}"),
            MaskOperation::Union,
            vec![reference(&format!("m{}", k - 1)), reference(&format!("m{}", k - 1))],
        ));
    }
    let payloads = [("m0", vec![1u16, 65_000])];
    let mut graph = graph(definitions, &payloads);
    let plane = graph.evaluate(&reference(&format!("m{levels}"))).unwrap();
    assert_eq!(plane.values, payloads[0].1);
    assert_eq!(
        graph.last_evaluated_node_count(),
        levels as usize + 1,
        "memoization must keep the doubly-referencing chain linear"
    );
}

#[test]
fn prompt_source_without_loaded_plane_uses_its_raster() {
    let mut def = definition("box-source", MaskOperation::Source, vec![]);
    def.has_prompt = true;
    let copy = Box::leak(Box::new(VirtualCopy { id: "vc".into(), mask_library: vec![def], mask_layers: vec![] }));
    let raster = MaskPlane::new(2, 1, vec![u16::MAX, 0]).unwrap();
    let mut graph = MaskGraph::new(
        std::slice::from_ref(copy),
        vec![],
        vec![(("vc".to_string(), "box-source".to_string()), Ok(raster))],
    );
    assert_eq!(graph.evaluate(&reference("box-source")).unwrap().values, vec![u16::MAX, 0]);
}

#[test]
fn prompt_raster_error_is_reported() {
    let mut def = definition("zero-source", MaskOperation::Source, vec![]);
    def.has_prompt = true;
    let copy = Box::leak(Box::new(VirtualCopy { id: "vc".into(), mask_library: vec![def], mask_layers: vec![] }));
    let mut graph = MaskGraph::new(
        std::slice::from_ref(copy),
        vec![],
        vec![(
            ("vc".to_string(), "zero-source".to_string()),
            Err(MaskError::InvalidPlane { width: 0, height: 0, length: 0 }),
        )],
    );
    assert_eq!(
        graph.evaluate(&reference("zero-source")),
        Err(MaskError::InvalidPlane { width: 0, height: 0, length: 0 })
    );
}

#[test]
fn later_definition_of_a_key_wins() {
    let first = definition("m", MaskOperation::Invert, refs(&["s"]));
    let second = definition("m", MaskOperation::Source, vec![]);
    let mut graph = graph(vec![first, second, definition("s", MaskOperation::Source, vec![])], &[("m", vec![3, 4])]);
    assert_eq!(graph.evaluate(&reference("m")).unwrap().values, vec![3, 4]);
}

#[test]
fn failed_evaluation_counts_visited_nodes() {
    let mut graph = graph(
        vec![
            definition("a", MaskOperation::Invert, refs(&["b"])),
            definition("b", MaskOperation::Invert, refs(&["a"])),
        ],
        &[],
    );
    assert!(graph.evaluate(&reference("a")).is_err());
    // `a`, `b`, and the second visit of `a` that finds the cycle.
    assert_eq!(graph.last_evaluated_node_count(), 3);
}
