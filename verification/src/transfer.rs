//! The decisions of the command-line `import` and `export` commands: which
//! request an import item becomes and how the outcome is counted, and which
//! record an export scan fetches next. The file and network work around
//! these decisions belongs to the caller.

use vstd::prelude::*;

use crate::cli::{lowercase_of, str_to_lowercase};
use crate::decimal::{decimal_digits, prefixed_decimal, push_decimal};

verus! {

/// What an import item becomes.
#[derive(Debug, Clone, PartialEq, Eq)]
pub enum ImportKind {
    /// A `CreateNode` request.
    Node,
    /// A `CreateEdge` request between two node ids, with its edge type.
    Edge { source: u64, target: u64, edge_type: String },
    /// An item of unknown type: skipped, and counted as a failure.
    Skip,
}

/// The error text for an edge item without the integer field `field`.
pub open spec fn missing_field_message(index: nat, field: Seq<char>) -> Seq<char> {
    "Item "@ + decimal_digits(index) + ": edge missing '"@ + field + "' (must be a positive integer)"@
}

/// The text of an optional string.
pub open spec fn text_of(s: Option<String>) -> Option<Seq<char>> {
    match s {
        Some(t) => Some(t@),
        None => None,
    }
}

/// The edge type an edge item asks for: its own, or `RELATED_TO`.
pub open spec fn edge_type_or_default(edge_type: Option<Seq<char>>) -> Seq<char> {
    match edge_type {
        Some(t) => t,
        None => "RELATED_TO"@,
    }
}

/// The kind of the item at position `index` whose `type` field, lower-cased,
/// reads `lower`: `node` and `edge` make requests, anything else is skipped.
/// An edge needs integer `source` and `target` fields; the first one missing
/// (source before target) fails the whole import with an error text.
pub open spec fn import_kind_spec(
    lower: Seq<char>,
    source: Option<u64>,
    target: Option<u64>,
    edge_type: Option<Seq<char>>,
    index: nat,
    r: Result<ImportKind, String>,
) -> bool {
    if lower == "node"@ {
        r == Ok::<ImportKind, String>(ImportKind::Node)
    } else if lower == "edge"@ {
        match (source, target) {
            (None, _) => r matches Err(m) && m@ == missing_field_message(index, "source"@),
            (Some(_), None) => r matches Err(m) && m@ == missing_field_message(index, "target"@),
            (Some(s), Some(t)) => r matches Ok(ImportKind::Edge { source: es, target: et, edge_type: e })
                && es == s && et == t && e@ == edge_type_or_default(edge_type),
        }
    } else {
        r == Ok::<ImportKind, String>(ImportKind::Skip)
    }
}

fn missing_field(index: usize, field: &str) -> (r: String)
    ensures
        r@ == missing_field_message(index as nat, field@),
{
    let mut msg = prefixed_decimal("Item ", index as u64);
    msg.append(": edge missing '");
    msg.append(field);
    msg.append("' (must be a positive integer)");
    proof {
        reveal_strlit("Item ");
        reveal_strlit(": edge missing '");
        reveal_strlit("' (must be a positive integer)");
    }
    msg
}

/// Decide what the import item at `index` becomes, given its `type` field
/// already lower-cased and its `source`, `target` and `edge_type` fields
/// where they hold an integer or a string.
pub fn import_kind_of(
    lower: &str,
    source: Option<u64>,
    target: Option<u64>,
    edge_type: Option<String>,
    index: usize,
) -> (r: Result<ImportKind, String>)
    ensures
        import_kind_spec(lower@, source, target, text_of(edge_type), index as nat, r),
{
    proof {
        reveal_strlit("node");
        reveal_strlit("edge");
        reveal_strlit("source");
        reveal_strlit("target");
        reveal_strlit("RELATED_TO");
    }
    let node = String::from_str("node");
    let edge = String::from_str("edge");
    let lowered = String::from_str(lower);
    if lowered == node {
        Ok(ImportKind::Node)
    } else if lowered == edge {
        match (source, target) {
            (None, _) => Err(missing_field(index, "source")),
            (Some(_), None) => Err(missing_field(index, "target")),
            (Some(s), Some(t)) => {
                let e = match edge_type {
                    Some(e) => e,
                    None => String::from_str("RELATED_TO"),
                };
                Ok(ImportKind::Edge { source: s, target: t, edge_type: e })
            },
        }
    } else {
        Ok(ImportKind::Skip)
    }
}

/// Decide what the import item at `index` becomes from its raw `type` field
/// (the empty string where it has none), lower-cased by `str::to_lowercase`.
pub fn classify_import_item(
    item_type: &str,
    source: Option<u64>,
    target: Option<u64>,
    edge_type: Option<String>,
    index: usize,
) -> (r: Result<ImportKind, String>)
    ensures
        import_kind_spec(
            lowercase_of(item_type@),
            source,
            target,
            text_of(edge_type),
            index as nat,
            r,
        ),
{
    let lower = str_to_lowercase(item_type);
    import_kind_of(lower.as_str(), source, target, edge_type, index)
}

/// What the import decisions read of one item of an import file: its
/// `type`, `source`, `target` and `edge_type` fields, where they hold a
/// string or an unsigned integer.
#[derive(Debug, Clone, PartialEq, Eq)]
pub struct ImportFields {
    pub item_type: Option<String>,
    pub source: Option<u64>,
    pub target: Option<u64>,
    pub edge_type: Option<String>,
}

/// The fields of one item, as plain values.
pub open spec fn fields_view(f: ImportFields) -> (Option<Seq<char>>, Option<u64>, Option<u64>, Option<Seq<char>>) {
    (text_of(f.item_type), f.source, f.target, text_of(f.edge_type))
}

/// The items that `serde_json::from_str` reads from the text of an import
/// file (a JSON array), each taken by its `type`, `source`, `target` and
/// `edge_type` fields; or the text of the parse error.
pub uninterp spec fn import_fields_of(text: Seq<char>) -> Result<
    Seq<(Option<Seq<char>>, Option<u64>, Option<u64>, Option<Seq<char>>)>,
    Seq<char>,
>;

/// Parses `text` with `serde_json::from_str` as an array of JSON values and
/// takes from each its `type` and `edge_type` fields where they are strings
/// (`Value::as_str`) and its `source` and `target` fields where they are
/// unsigned integers (`Value::as_u64`); a parse error gives the error's
/// text. The result is named, not restated: JSON's grammar is serde_json's.
#[verifier::external_body]
fn parse_import_fields(text: &str) -> (r: Result<Vec<ImportFields>, String>)
    ensures
        match (r, import_fields_of(text@)) {
            (Ok(v), Ok(f)) => v@.map_values(|x: ImportFields| fields_view(x)) == f,
            (Err(e), Err(m)) => e@ == m,
            _ => false,
        },
{
    let items: Vec<serde_json::Value> = serde_json::from_str(text).map_err(|e| e.to_string())?;
    Ok(items.iter().map(|it| ImportFields {
        item_type: it.get("type").and_then(|v| v.as_str()).map(String::from),
        source: it.get("source").and_then(|v| v.as_u64()),
        target: it.get("target").and_then(|v| v.as_u64()),
        edge_type: it.get("edge_type").and_then(|v| v.as_str()).map(String::from),
    }).collect())
}

/// The type text of an item: its `type` field, or empty where it has none.
pub open spec fn type_text(t: Option<Seq<char>>) -> Seq<char> {
    match t {
        Some(s) => s,
        None => Seq::empty(),
    }
}

/// `r` is what the item with fields `f` at position `index` becomes.
pub open spec fn item_kind(
    f: (Option<Seq<char>>, Option<u64>, Option<u64>, Option<Seq<char>>),
    index: nat,
    r: Result<ImportKind, String>,
) -> bool {
    import_kind_spec(lowercase_of(type_text(f.0)), f.1, f.2, f.3, index, r)
}

/// The error text for an import file that does not parse.
pub open spec fn parse_failure_message(file: Seq<char>, err: Seq<char>) -> Seq<char> {
    "Failed to parse JSON from '"@ + file + "': "@ + err
}

/// The plan of an import: what each item becomes, up to the first item that
/// makes the import fail, and that item's error.
#[derive(Debug, Clone, PartialEq, Eq)]
pub struct ImportPlan {
    pub kinds: Vec<ImportKind>,
    pub stop: Option<String>,
}

/// `plan` classifies the items `fs` in order, stopping at the first item
/// that fails.
pub open spec fn plans(fs: Seq<(Option<Seq<char>>, Option<u64>, Option<u64>, Option<Seq<char>>)>, plan: ImportPlan) -> bool {
    &&& plan.kinds@.len() <= fs.len()
    &&& forall|i: int| 0 <= i < plan.kinds@.len() ==> item_kind(fs[i], i as nat, Ok(#[trigger] plan.kinds@[i]))
    &&& match plan.stop {
        None => plan.kinds@.len() == fs.len(),
        Some(m) => plan.kinds@.len() < fs.len() && item_kind(
            fs[plan.kinds@.len() as int],
            plan.kinds@.len(),
            Err(m),
        ),
    }
}

/// Plan the import of the file `file_name` whose text is `text`: parse it,
/// then decide what each item becomes, in order, until an item fails.
pub fn plan_import(file_name: &str, text: &str) -> (r: Result<ImportPlan, String>)
    ensures
        match import_fields_of(text@) {
            Err(m) => r matches Err(e) && e@ == parse_failure_message(file_name@, m),
            Ok(fs) => r matches Ok(plan) && plans(fs, plan),
        },
{
    let fields = match parse_import_fields(text) {
        Ok(v) => v,
        Err(e) => {
            let mut msg = String::from_str("Failed to parse JSON from '");
            msg.append(file_name);
            msg.append("': ");
            msg.append(e.as_str());
            proof {
                reveal_strlit("Failed to parse JSON from '");
                reveal_strlit("': ");
            }
            return Err(msg);
        },
    };
    let ghost fs = fields@.map_values(|x: ImportFields| fields_view(x));
    let mut kinds: Vec<ImportKind> = Vec::new();
    let mut i: usize = 0;
    while i < fields.len()
        invariant
            import_fields_of(text@) == Ok::<_, Seq<char>>(fs),
            fs == fields@.map_values(|x: ImportFields| fields_view(x)),
            i <= fields@.len(),
            kinds@.len() == i,
            forall|j: int| 0 <= j < i ==> item_kind(fs[j], j as nat, Ok(#[trigger] kinds@[j])),
        decreases fields@.len() - i,
    {
        let item = &fields[i];
        let type_str: &str = match &item.item_type {
            Some(t) => t.as_str(),
            None => "",
        };
        proof {
            reveal_strlit("");
            assert(type_str@ == type_text(fs[i as int].0));
        }
        let edge_type = match &item.edge_type {
            Some(e) => Some(e.clone()),
            None => None,
        };
        assert(text_of(edge_type) == fs[i as int].3);
        match classify_import_item(type_str, item.source, item.target, edge_type, i) {
            Ok(kind) => {
                kinds.push(kind);
            },
            Err(m) => {
                let plan = ImportPlan { kinds, stop: Some(m) };
                return Ok(plan);
            },
        }
        i = i + 1;
    }
    Ok(ImportPlan { kinds, stop: None })
}

/// Counts of an import run: nodes and edges created, items that failed.
#[derive(Debug, Clone, Copy, PartialEq, Eq, Structural)]
pub struct ImportCounts {
    pub nodes: u64,
    pub edges: u64,
    pub errors: u64,
}

impl ImportCounts {
    /// No item counted yet.
    pub fn new() -> (r: Self)
        ensures
            r == (ImportCounts { nodes: 0, edges: 0, errors: 0 }),
    {
        ImportCounts { nodes: 0, edges: 0, errors: 0 }
    }
}

/// The counts after one more item of `kind`: a skipped item is a failure; a
/// sent request counts as a node or an edge when the server answered with
/// status `ok`, and as a failure otherwise (an error reply, or no reply).
pub open spec fn tally_spec(c: ImportCounts, kind: ImportKind, reply_ok: bool) -> ImportCounts {
    match kind {
        ImportKind::Node if reply_ok => ImportCounts { nodes: (c.nodes + 1) as u64, ..c },
        ImportKind::Edge { .. } if reply_ok => ImportCounts { edges: (c.edges + 1) as u64, ..c },
        _ => ImportCounts { errors: (c.errors + 1) as u64, ..c },
    }
}

/// Count one import item of `kind`; `reply_ok` tells whether the server's
/// reply had status `ok` (ignored for a skipped item).
pub fn tally_import(c: ImportCounts, kind: &ImportKind, reply_ok: bool) -> (r: ImportCounts)
    requires
        c.nodes < u64::MAX,
        c.edges < u64::MAX,
        c.errors < u64::MAX,
    ensures
        r == tally_spec(c, *kind, reply_ok),
        (*kind is Node && reply_ok) ==> r == (ImportCounts { nodes: (c.nodes + 1) as u64, ..c }),
        (*kind is Edge && reply_ok) ==> r == (ImportCounts { edges: (c.edges + 1) as u64, ..c }),
        (*kind is Skip || !reply_ok) ==> r == (ImportCounts { errors: (c.errors + 1) as u64, ..c }),
{
    match kind {
        ImportKind::Node if reply_ok => ImportCounts { nodes: c.nodes + 1, ..c },
        ImportKind::Edge { .. } if reply_ok => ImportCounts { edges: c.edges + 1, ..c },
        _ => ImportCounts { errors: c.errors + 1, ..c },
    }
}

/// How one import item is counted: a node or an edge that the server
/// accepted adds one to the nodes or to the edges; a skipped item, and an
/// item the server rejected or never answered, adds one to the failures;
/// no other count changes.
pub proof fn lemma_tally_outcome(c: ImportCounts, kind: ImportKind, reply_ok: bool)
    requires
        c.nodes < u64::MAX,
        c.edges < u64::MAX,
        c.errors < u64::MAX,
    ensures
        ({
            let r = tally_spec(c, kind, reply_ok);
            &&& kind is Node && reply_ok ==> r.nodes == c.nodes + 1 && r.edges == c.edges && r.errors == c.errors
            &&& kind is Edge && reply_ok ==> r.nodes == c.nodes && r.edges == c.edges + 1 && r.errors == c.errors
            &&& kind is Skip || !reply_ok ==> r.nodes == c.nodes && r.edges == c.edges && r.errors == c.errors + 1
            &&& r.nodes + r.edges + r.errors == c.nodes + c.edges + c.errors + 1
        }),
{
}

/// The line that reports an import run.
pub open spec fn import_summary_spec(c: ImportCounts) -> Seq<char> {
    "Imported "@ + decimal_digits(c.nodes as nat) + " nodes and "@ + decimal_digits(c.edges as nat)
        + " edges"@
}

/// `Imported N nodes and M edges`.
pub fn import_summary(c: ImportCounts) -> (r: String)
    ensures
        r@ == import_summary_spec(c),
{
    let mut out = prefixed_decimal("Imported ", c.nodes);
    out.append(" nodes and ");
    push_decimal(&mut out, c.edges);
    out.append(" edges");
    proof {
        reveal_strlit("Imported ");
        reveal_strlit(" nodes and ");
        reveal_strlit(" edges");
    }
    out
}

/// The two kinds of record an export scans for.
#[derive(Debug, Clone, Copy, PartialEq, Eq, Structural)]
pub enum RecordKind {
    Node,
    Edge,
}

/// Where an export scan stands.
#[derive(Debug, Clone, Copy, PartialEq, Eq, Structural)]
pub enum ExportPhase {
    Nodes,
    Edges,
    Finished,
}

/// An export scan: the phase, the id asked for last, the highest id to ask
/// for, and the nodes and edges found so far.
#[derive(Debug, Clone, Copy, PartialEq, Eq, Structural)]
pub struct ExportState {
    pub phase: ExportPhase,
    pub id: u64,
    pub max_id: u64,
    pub nodes: u64,
    pub edges: u64,
}

/// The answer to the last fetch: the record was there (status `ok` with
/// data), it was not, or the connection failed.
#[derive(Debug, Clone, Copy, PartialEq, Eq, Structural)]
pub enum ExportReply {
    Found,
    Missing,
    Failed,
}

/// What the caller does next: fetch one record, or write out what was found.
#[derive(Debug, Clone, Copy, PartialEq, Eq, Structural)]
pub enum ExportAction {
    Fetch { kind: RecordKind, id: u64 },
    Write,
}

/// A state that an export scan can be in: while a phase scans, the pending
/// id lies in `1..=max_id` and fewer records were found than ids asked for.
pub open spec fn export_valid(st: ExportState) -> bool {
    match st.phase {
        ExportPhase::Nodes => 1 <= st.id <= st.max_id && st.nodes < st.id && st.edges == 0,
        ExportPhase::Edges => 1 <= st.id <= st.max_id && st.nodes <= st.max_id && st.edges < st.id,
        ExportPhase::Finished => st.nodes <= st.max_id && st.edges <= st.max_id,
    }
}

/// Move on to the edge scan: from id 1, or straight to writing when there is
/// no id to scan.
pub open spec fn begin_edges_spec(st: ExportState) -> (ExportState, ExportAction) {
    if st.max_id >= 1 {
        (
            ExportState { phase: ExportPhase::Edges, id: 1, ..st },
            ExportAction::Fetch { kind: RecordKind::Edge, id: 1 },
        )
    } else {
        (ExportState { phase: ExportPhase::Finished, ..st }, ExportAction::Write)
    }
}

/// The start of an export of ids `1..=max_id`: nodes first.
pub open spec fn export_start_spec(max_id: u64) -> (ExportState, ExportAction) {
    let st = ExportState { phase: ExportPhase::Nodes, id: 0, max_id, nodes: 0, edges: 0 };
    if max_id >= 1 {
        (ExportState { id: 1, ..st }, ExportAction::Fetch { kind: RecordKind::Node, id: 1 })
    } else {
        (ExportState { phase: ExportPhase::Finished, ..st }, ExportAction::Write)
    }
}

/// One step of an export scan, given the reply to the last fetch. A found
/// record is counted; after the last id, or at the first connection error,
/// the node scan gives way to the edge scan and the edge scan to writing.
pub open spec fn export_step_spec(st: ExportState, reply: ExportReply) -> (ExportState, ExportAction) {
    match st.phase {
        ExportPhase::Nodes => {
            if reply == ExportReply::Failed {
                begin_edges_spec(st)
            } else {
                let counted = if reply == ExportReply::Found {
                    ExportState { nodes: (st.nodes + 1) as u64, ..st }
                } else {
                    st
                };
                if st.id < st.max_id {
                    (
                        ExportState { id: (st.id + 1) as u64, ..counted },
                        ExportAction::Fetch { kind: RecordKind::Node, id: (st.id + 1) as u64 },
                    )
                } else {
                    begin_edges_spec(counted)
                }
            }
        },
        ExportPhase::Edges => {
            if reply == ExportReply::Failed {
                (ExportState { phase: ExportPhase::Finished, ..st }, ExportAction::Write)
            } else {
                let counted = if reply == ExportReply::Found {
                    ExportState { edges: (st.edges + 1) as u64, ..st }
                } else {
                    st
                };
                if st.id < st.max_id {
                    (
                        ExportState { id: (st.id + 1) as u64, ..counted },
                        ExportAction::Fetch { kind: RecordKind::Edge, id: (st.id + 1) as u64 },
                    )
                } else {
                    (ExportState { phase: ExportPhase::Finished, ..counted }, ExportAction::Write)
                }
            }
        },
        ExportPhase::Finished => (st, ExportAction::Write),
    }
}

/// How an export scan moves: a found record is counted and a missing one
/// skipped, and either way the scan goes on to the next id of the same kind
/// up to `max_id`; the node scan gives way to the edge scan, from edge id 1,
/// after its last id or at a connection error; the edge scan ends in writing
/// the file after its last id or at a connection error. Node counts never
/// change during the edge scan, and nothing changes once finished.
pub proof fn lemma_export_scan(st: ExportState, reply: ExportReply)
    requires
        export_valid(st),
    ensures
        ({
            let (s2, a) = export_step_spec(st, reply);
            let found: int = if reply == ExportReply::Found { 1 } else { 0 };
            &&& st.phase == ExportPhase::Nodes && reply != ExportReply::Failed && st.id < st.max_id ==> {
                &&& a == ExportAction::Fetch { kind: RecordKind::Node, id: (st.id + 1) as u64 }
                &&& s2.phase == ExportPhase::Nodes && s2.id == st.id + 1 && s2.max_id == st.max_id
                &&& s2.nodes == st.nodes + found && s2.edges == st.edges
            }
            &&& st.phase == ExportPhase::Nodes && (reply == ExportReply::Failed || st.id == st.max_id) ==> {
                &&& a == ExportAction::Fetch { kind: RecordKind::Edge, id: 1 }
                &&& s2.phase == ExportPhase::Edges && s2.id == 1 && s2.max_id == st.max_id
                &&& s2.nodes == st.nodes + (if reply == ExportReply::Failed { 0 } else { found })
                &&& s2.edges == 0
            }
            &&& st.phase == ExportPhase::Edges && reply != ExportReply::Failed && st.id < st.max_id ==> {
                &&& a == ExportAction::Fetch { kind: RecordKind::Edge, id: (st.id + 1) as u64 }
                &&& s2.phase == ExportPhase::Edges && s2.id == st.id + 1 && s2.max_id == st.max_id
                &&& s2.nodes == st.nodes && s2.edges == st.edges + found
            }
            &&& st.phase == ExportPhase::Edges && (reply == ExportReply::Failed || st.id == st.max_id) ==> {
                &&& a == ExportAction::Write
                &&& s2.phase == ExportPhase::Finished
                &&& s2.nodes == st.nodes
                &&& s2.edges == st.edges + (if reply == ExportReply::Failed { 0 } else { found })
            }
            &&& st.phase == ExportPhase::Finished ==> a == ExportAction::Write && s2 == st
        }),
{
}

/// An export starts with node id 1, or, with no id to scan, writes at once
/// with nothing counted.
pub proof fn lemma_export_begins(max_id: u64)
    ensures
        ({
            let (st, a) = export_start_spec(max_id);
            &&& st.max_id == max_id && st.nodes == 0 && st.edges == 0
            &&& max_id >= 1 ==> a == ExportAction::Fetch { kind: RecordKind::Node, id: 1 }
                && st.phase == ExportPhase::Nodes && st.id == 1
            &&& max_id == 0 ==> a == ExportAction::Write && st.phase == ExportPhase::Finished
        }),
{
}

fn begin_edges(st: ExportState) -> (r: (ExportState, ExportAction))
    requires
        st.nodes <= st.max_id,
        st.edges == 0,
    ensures
        r == begin_edges_spec(st),
        export_valid(r.0),
{
    if st.max_id >= 1 {
        (
            ExportState { phase: ExportPhase::Edges, id: 1, ..st },
            ExportAction::Fetch { kind: RecordKind::Edge, id: 1 },
        )
    } else {
        (ExportState { phase: ExportPhase::Finished, ..st }, ExportAction::Write)
    }
}

/// Start an export of ids `1..=max_id`.
pub fn export_start(max_id: u64) -> (r: (ExportState, ExportAction))
    ensures
        r == export_start_spec(max_id),
        export_valid(r.0),
{
    let st = ExportState { phase: ExportPhase::Nodes, id: 0, max_id, nodes: 0, edges: 0 };
    if max_id >= 1 {
        (ExportState { id: 1, ..st }, ExportAction::Fetch { kind: RecordKind::Node, id: 1 })
    } else {
        (ExportState { phase: ExportPhase::Finished, ..st }, ExportAction::Write)
    }
}

/// Take one step of an export scan, given the reply to the last fetch.
pub fn export_step(st: ExportState, reply: ExportReply) -> (r: (ExportState, ExportAction))
    requires
        export_valid(st),
    ensures
        r == export_step_spec(st, reply),
        export_valid(r.0),
{
    match st.phase {
        ExportPhase::Nodes => {
            if let ExportReply::Failed = reply {
                begin_edges(st)
            } else {
                let counted = if let ExportReply::Found = reply {
                    ExportState { nodes: st.nodes + 1, ..st }
                } else {
                    st
                };
                if st.id < st.max_id {
                    (
                        ExportState { id: st.id + 1, ..counted },
                        ExportAction::Fetch { kind: RecordKind::Node, id: st.id + 1 },
                    )
                } else {
                    begin_edges(counted)
                }
            }
        },
        ExportPhase::Edges => {
            if let ExportReply::Failed = reply {
                (ExportState { phase: ExportPhase::Finished, ..st }, ExportAction::Write)
            } else {
                let counted = if let ExportReply::Found = reply {
                    ExportState { edges: st.edges + 1, ..st }
                } else {
                    st
                };
                if st.id < st.max_id {
                    (
                        ExportState { id: st.id + 1, ..counted },
                        ExportAction::Fetch { kind: RecordKind::Edge, id: st.id + 1 },
                    )
                } else {
                    (ExportState { phase: ExportPhase::Finished, ..counted }, ExportAction::Write)
                }
            }
        },
        ExportPhase::Finished => (st, ExportAction::Write),
    }
}

} // verus!
