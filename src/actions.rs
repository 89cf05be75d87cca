use vstd::prelude::*;

pub use crate::graph::{CsrLayout, Orientation};
use crate::Error;

verus! {

impl Default for Orientation {
    fn default() -> (r: Orientation)
        ensures
            r == Orientation::Directed,
    {
        Orientation::Directed
    }
}

impl Default for CsrLayout {
    fn default() -> (r: CsrLayout)
        ensures
            r == CsrLayout::Sorted,
    {
        CsrLayout::Sorted
    }
}

/// The file formats a graph can be read from.
#[derive(Clone, Copy, Debug, PartialEq, Eq, Structural)]
pub enum FileFormat {
    EdgeList,
    EdgeListWeighted,
    Graph500,
}

/// The layout as it is named in a request.
#[derive(Clone, Copy, Debug, PartialEq, Eq, Structural)]
pub enum CsrLayoutRef {
    Sorted,
    Unsorted,
    Deduplicated,
}

impl CsrLayoutRef {
    pub fn to_layout(self) -> (r: CsrLayout)
        ensures
            self == CsrLayoutRef::Sorted ==> r == CsrLayout::Sorted,
            self == CsrLayoutRef::Unsorted ==> r == CsrLayout::Unsorted,
            self == CsrLayoutRef::Deduplicated ==> r == CsrLayout::Deduplicated,
    {
        match self {
            CsrLayoutRef::Sorted => CsrLayout::Sorted,
            CsrLayoutRef::Unsorted => CsrLayout::Unsorted,
            CsrLayoutRef::Deduplicated => CsrLayout::Deduplicated,
        }
    }

    pub fn from_layout(layout: CsrLayout) -> (r: CsrLayoutRef)
        ensures
            r.to_layout_spec() == layout,
    {
        match layout {
            CsrLayout::Sorted => CsrLayoutRef::Sorted,
            CsrLayout::Unsorted => CsrLayoutRef::Unsorted,
            CsrLayout::Deduplicated => CsrLayoutRef::Deduplicated,
        }
    }

    pub open spec fn to_layout_spec(self) -> CsrLayout {
        match self {
            CsrLayoutRef::Sorted => CsrLayout::Sorted,
            CsrLayoutRef::Unsorted => CsrLayout::Unsorted,
            CsrLayoutRef::Deduplicated => CsrLayout::Deduplicated,
        }
    }
}

/// A request to read a graph from a file and hold it under a name.
pub struct CreateGraphFromFileConfig {
    pub graph_name: String,
    pub file_format: FileFormat,
    pub path: String,
    pub csr_layout: CsrLayout,
    pub orientation: Orientation,
}

/// A request to build a graph from edges sent along with it.
pub struct CreateGraphCommand {
    pub graph_name: String,
    pub edge_count: i64,
    pub csr_layout: CsrLayout,
    pub orientation: Orientation,
}

pub struct CreateActionResult {
    pub node_count: u64,
    pub edge_count: u64,
    pub create_millis: u128,
}

impl CreateActionResult {
    pub fn new(node_count: u64, edge_count: u64, create_millis: u128) -> (r: CreateActionResult)
        ensures
            r.node_count == node_count,
            r.edge_count == edge_count,
            r.create_millis == create_millis,
    {
        CreateActionResult { node_count, edge_count, create_millis }
    }
}

/// What is known of one held graph.
pub struct GraphInfo {
    pub graph_name: String,
    pub graph_type: String,
    pub node_count: u64,
    pub edge_count: u64,
}

impl GraphInfo {
    pub fn new(graph_name: String, graph_type: String, node_count: u64, edge_count: u64) -> (r:
        GraphInfo)
        ensures
            r.graph_name == graph_name,
            r.graph_type == graph_type,
            r.node_count == node_count,
            r.edge_count == edge_count,
    {
        GraphInfo { graph_name, graph_type, node_count, edge_count }
    }
}

pub struct ListActionResult {
    pub graph_infos: Vec<GraphInfo>,
}

impl ListActionResult {
    pub fn new(graph_infos: Vec<GraphInfo>) -> (r: ListActionResult)
        ensures
            r.graph_infos == graph_infos,
    {
        ListActionResult { graph_infos }
    }
}

pub struct RelabelConfig {
    pub graph_name: String,
}

pub struct RelabelActionResult {
    pub relabel_millis: u128,
}

/// Settings of a PageRank run; the floating-point settings are held as their
/// IEEE-754 bit patterns.
#[derive(Clone, Copy, Debug, PartialEq, Eq, Structural)]
pub struct PageRankConfig {
    pub max_iterations: usize,
    pub tolerance_bits: u64,
    pub damping_factor_bits: u32,
}

/// Settings of a delta-stepping shortest-path run; `delta` is held as its
/// IEEE-754 bit pattern.
#[derive(Clone, Copy, Debug, PartialEq, Eq, Structural)]
pub struct DeltaSteppingConfig {
    pub start_node: usize,
    pub delta_bits: u32,
}

/// Settings of a weakly-connected-components run.
#[derive(Clone, Copy, Debug, PartialEq, Eq, Structural)]
pub struct WccConfig {
    pub chunk_size: usize,
    pub neighbor_rounds: usize,
    pub sampling_size: usize,
}

/// The algorithm a compute request runs, with its settings.
#[derive(Clone, Copy, Debug, PartialEq, Eq, Structural)]
pub enum Algorithm {
    PageRank(PageRankConfig),
    TriangleCount,
    Sssp(DeltaSteppingConfig),
    Wcc(WccConfig),
}

pub struct ComputeConfig {
    pub graph_name: String,
    pub algorithm: Algorithm,
    pub property_key: String,
}

pub struct TriangleCountResult {
    pub triangle_count: u64,
    pub compute_millis: u128,
}

pub struct SsspResult {
    pub compute_millis: u128,
}

pub struct WccResult {
    pub compute_millis: u128,
}

/// Names a property written back to a held graph.
#[derive(Clone, Copy, Debug, PartialEq, Eq, Structural)]
pub struct PropertyId {
    pub id: u64,
}

/// An algorithm's result, with the property it was stored under.
pub struct MutateResult<T> {
    pub property_id: PropertyId,
    pub algo_result: T,
}

impl<T> MutateResult<T> {
    pub fn new(property_id: PropertyId, algo_result: T) -> (r: MutateResult<T>)
        ensures
            r.property_id == property_id,
            r.algo_result == algo_result,
    {
        MutateResult { property_id, algo_result }
    }
}

/// The request kinds, told apart by their type name.
#[derive(Clone, Copy, Debug, PartialEq, Eq, Structural)]
pub enum ActionKind {
    Create,
    List,
    Compute,
    Relabel,
}

/// A decoded request.
pub enum FlightAction {
    Create(CreateGraphFromFileConfig),
    List,
    Compute(ComputeConfig),
    Relabel(RelabelConfig),
}

/// A request kind as it is announced to clients.
pub struct ActionType {
    pub kind: String,
    pub description: String,
}

impl FlightAction {
    /// The four request kinds, with their descriptions.
    pub fn action_types() -> (r: [ActionType; 4])
        ensures
            r[0].kind@ == "create"@,
            r[1].kind@ == "list"@,
            r[2].kind@ == "compute"@,
            r[3].kind@ == "relabel"@,
            r[0].description@ == "Create an in-memory graph."@,
            r[1].description@ == "List in-memory graphs."@,
            r[2].description@ == "Compute a graph algorithm on an in-memory graph."@,
            r[3].description@ == "Relabel an in-memory graph"@,
    {
        [
            ActionType {
                kind: "create".to_owned(),
                description: "Create an in-memory graph.".to_owned(),
            },
            ActionType { kind: "list".to_owned(), description: "List in-memory graphs.".to_owned() },
            ActionType {
                kind: "compute".to_owned(),
                description: "Compute a graph algorithm on an in-memory graph.".to_owned(),
            },
            ActionType {
                kind: "relabel".to_owned(),
                description: "Relabel an in-memory graph".to_owned(),
            },
        ]
    }

    /// The kind a request type name stands for; unknown names are an
    /// `InvalidArgument`.
    pub fn kind_of(action_type: &String) -> (r: Result<ActionKind, Error>)
        ensures
            action_type@ == "create"@ <==> r == Ok::<ActionKind, Error>(ActionKind::Create),
            action_type@ == "list"@ <==> r == Ok::<ActionKind, Error>(ActionKind::List),
            action_type@ == "compute"@ <==> r == Ok::<ActionKind, Error>(ActionKind::Compute),
            action_type@ == "relabel"@ <==> r == Ok::<ActionKind, Error>(ActionKind::Relabel),
            r is Err ==> r == Err::<ActionKind, Error>(Error::InvalidArgument),
    {
        let create = "create".to_owned();
        let list = "list".to_owned();
        let compute = "compute".to_owned();
        let relabel = "relabel".to_owned();
        proof {
            reveal_strlit("create");
            reveal_strlit("list");
            reveal_strlit("compute");
            reveal_strlit("relabel");
            assert("create"@.len() == 6 && "list"@.len() == 4);
            assert("compute"@.len() == 7 && "relabel"@.len() == 7);
            assert("compute"@[0] != "relabel"@[0]);
        }
        if *action_type == create {
            Ok(ActionKind::Create)
        } else if *action_type == list {
            Ok(ActionKind::List)
        } else if *action_type == compute {
            Ok(ActionKind::Compute)
        } else if *action_type == relabel {
            Ok(ActionKind::Relabel)
        } else {
            Err(Error::InvalidArgument)
        }
    }

    /// The request for a kind, from its decoded body; `List` takes no body.
    pub fn from_parts(
        kind: ActionKind,
        create: Option<CreateGraphFromFileConfig>,
        compute: Option<ComputeConfig>,
        relabel: Option<RelabelConfig>,
    ) -> (r: Result<FlightAction, Error>)
        ensures
            kind == ActionKind::List ==> r matches Ok(FlightAction::List),
            kind == ActionKind::Create ==> (create is Some <==> r matches Ok(FlightAction::Create(_))),
            kind == ActionKind::Compute ==> (compute is Some <==> r matches Ok(FlightAction::Compute(_))),
            kind == ActionKind::Relabel ==> (relabel is Some <==> r matches Ok(FlightAction::Relabel(_))),
            r is Err ==> r == Err::<FlightAction, Error>(Error::InvalidArgument),
    {
        match kind {
            ActionKind::List => Ok(FlightAction::List),
            ActionKind::Create => match create {
                Some(c) => Ok(FlightAction::Create(c)),
                None => Err(Error::InvalidArgument),
            },
            ActionKind::Compute => match compute {
                Some(c) => Ok(FlightAction::Compute(c)),
                None => Err(Error::InvalidArgument),
            },
            ActionKind::Relabel => match relabel {
                Some(c) => Ok(FlightAction::Relabel(c)),
                None => Err(Error::InvalidArgument),
            },
        }
    }
}

} // verus!
