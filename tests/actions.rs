use graph_kernels::actions::{
    ActionKind, CreateActionResult, CsrLayoutRef, FlightAction, GraphInfo, ListActionResult,
    MutateResult, PropertyId, RelabelConfig, TriangleCountResult,
};
use graph_kernels::graph::{CsrLayout, Orientation};
use graph_kernels::Error;

#[test]
fn action_types_are_listed() {
    let types = FlightAction::action_types();
    let kinds: Vec<&str> = types.iter().map(|t| t.kind.as_str()).collect();
    assert_eq!(kinds, vec!["create", "list", "compute", "relabel"]);
    assert_eq!(types[3].description, "Relabel an in-memory graph");
}

#[test]
fn action_kinds_by_name() {
    assert_eq!(FlightAction::kind_of(&"create".to_string()), Ok(ActionKind::Create));
    assert_eq!(FlightAction::kind_of(&"list".to_string()), Ok(ActionKind::List));
    assert_eq!(FlightAction::kind_of(&"compute".to_string()), Ok(ActionKind::Compute));
    assert_eq!(FlightAction::kind_of(&"relabel".to_string()), Ok(ActionKind::Relabel));
    assert_eq!(FlightAction::kind_of(&"drop".to_string()), Err(Error::InvalidArgument));
}

#[test]
fn missing_body_is_invalid() {
    let r = FlightAction::from_parts(ActionKind::Relabel, None, None, None);
    assert!(matches!(r, Err(Error::InvalidArgument)));
    let r = FlightAction::from_parts(
        ActionKind::Relabel,
        None,
        None,
        Some(RelabelConfig { graph_name: "g".to_string() }),
    );
    assert!(matches!(r, Ok(FlightAction::Relabel(_))));
    assert!(matches!(FlightAction::from_parts(ActionKind::List, None, None, None), Ok(FlightAction::List)));
}

#[test]
fn defaults() {
    assert_eq!(Orientation::default(), Orientation::Directed);
    assert_eq!(CsrLayout::default(), CsrLayout::Sorted);
    assert_eq!(CsrLayoutRef::Deduplicated.to_layout(), CsrLayout::Deduplicated);
    assert_eq!(CsrLayoutRef::from_layout(CsrLayout::Unsorted), CsrLayoutRef::Unsorted);
}

#[test]
fn results_keep_their_fields() {
    let c = CreateActionResult::new(3, 2, 17);
    assert_eq!((c.node_count, c.edge_count, c.create_millis), (3, 2, 17));
    let info = GraphInfo::new("g".to_string(), "undirected".to_string(), 3, 2);
    let list = ListActionResult::new(vec![info]);
    assert_eq!(list.graph_infos[0].graph_name, "g");
    assert_eq!(list.graph_infos[0].edge_count, 2);
    let m = MutateResult::new(PropertyId { id: 7 }, TriangleCountResult { triangle_count: 4, compute_millis: 1 });
    assert_eq!(m.property_id.id, 7);
    assert_eq!(m.algo_result.triangle_count, 4);
}
