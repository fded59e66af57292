//! Ribbon tools: the P&ID commands and the parametric module's panels.
//!
//! A tool's icon is named by its asset file under `assets/`; the
//! application loads the bytes.

use vstd::prelude::*;

use crate::text::{chars_of, string_of};

verus! {

/// How a tool is drawn on the ribbon.
#[derive(Clone, Copy, Debug, PartialEq, Eq)]
pub enum IconKind {
    /// An SVG icon: its asset file under `assets/`.
    Svg(&'static str),
}

/// What pressing a tool does.
#[derive(Clone, Debug, PartialEq, Eq)]
pub enum ModuleEvent {
    /// Run a command line.
    Command(String),
}

/// One ribbon tool.
#[derive(Clone, Debug, PartialEq, Eq)]
pub struct ToolDef {
    pub id: &'static str,
    pub label: &'static str,
    pub icon: IconKind,
    pub event: ModuleEvent,
}

/// The tool that runs `command`.
pub open spec fn runs(t: ToolDef, command: Seq<char>) -> bool {
    t.event matches ModuleEvent::Command(c) && c@ == command
}

fn command_event(command: &str) -> (e: ModuleEvent)
    ensures
        e matches ModuleEvent::Command(c) && c@ == command@,
{
    ModuleEvent::Command(string_of(chars_of(command).as_slice()))
}

/// `PIDLEGEND LIST` on the ribbon.
pub fn legend_tool() -> (t: ToolDef)
    ensures
        t.id@ == "PIDLEGEND"@,
        t.label@ == "P&ID Legend"@,
        t.icon == IconKind::Svg("icons/report.svg"),
        runs(t, "PIDLEGEND LIST"@),
{
    ToolDef {
        id: "PIDLEGEND",
        label: "P&ID Legend",
        icon: IconKind::Svg("icons/report.svg"),
        event: command_event("PIDLEGEND LIST"),
    }
}

/// `PIDTAG` on the ribbon.
pub fn tag_tool() -> (t: ToolDef)
    ensures
        t.id@ == "PIDTAG"@,
        t.label@ == "Find P&ID Tag"@,
        t.icon == IconKind::Svg("icons/find.svg"),
        runs(t, "PIDTAG"@),
{
    ToolDef {
        id: "PIDTAG",
        label: "Find P&ID Tag",
        icon: IconKind::Svg("icons/find.svg"),
        event: command_event("PIDTAG"),
    }
}

/// `PIDGROUP GROUP` on the ribbon.
pub fn group_tool() -> (t: ToolDef)
    ensures
        t.id@ == "PIDGROUP"@,
        t.label@ == "P&ID Group"@,
        t.icon == IconKind::Svg("icons/group.svg"),
        runs(t, "PIDGROUP GROUP"@),
{
    ToolDef {
        id: "PIDGROUP",
        label: "P&ID Group",
        icon: IconKind::Svg("icons/group.svg"),
        event: command_event("PIDGROUP GROUP"),
    }
}

/// `PIDGROUP OFF` on the ribbon.
pub fn ungroup_tool() -> (t: ToolDef)
    ensures
        t.id@ == "PIDUNGROUP"@,
        t.label@ == "Ungroup P&ID Symbol"@,
        t.icon == IconKind::Svg("icons/ungroup.svg"),
        runs(t, "PIDGROUP OFF"@),
{
    ToolDef {
        id: "PIDUNGROUP",
        label: "Ungroup P&ID Symbol",
        icon: IconKind::Svg("icons/ungroup.svg"),
        event: command_event("PIDGROUP OFF"),
    }
}

// ── the parametric module ───────────────────────────────────────────────

/// One entry of a ribbon panel.
#[derive(Clone, Debug, PartialEq, Eq)]
pub enum RibbonItem {
    Tool(ToolDef),
    LabeledTool(ToolDef),
    LargeTool(ToolDef),
    Dropdown {
        id: &'static str,
        icon: IconKind,
        items: Vec<(&'static str, &'static str, IconKind)>,
        default: &'static str,
    },
    LabeledDropdown {
        id: &'static str,
        label: &'static str,
        icon: IconKind,
        items: Vec<(&'static str, &'static str, IconKind)>,
        default: &'static str,
    },
    LargeDropdown {
        id: &'static str,
        label: &'static str,
        icon: IconKind,
        items: Vec<(&'static str, &'static str, IconKind)>,
        default: &'static str,
    },
    /// Small tools in columns.
    ToolGrid { columns: Vec<Vec<ToolDef>> },
}

/// A titled panel of the ribbon.
#[derive(Clone, Debug, PartialEq, Eq)]
pub struct RibbonGroup {
    pub title: &'static str,
    pub tools: Vec<RibbonItem>,
}

/// The id an item answers to; a grid is `GRID`.
pub open spec fn item_id(item: RibbonItem) -> Seq<char> {
    match item {
        RibbonItem::Tool(t) => t.id@,
        RibbonItem::LabeledTool(t) => t.id@,
        RibbonItem::LargeTool(t) => t.id@,
        RibbonItem::Dropdown { id, .. } => id@,
        RibbonItem::LabeledDropdown { id, .. } => id@,
        RibbonItem::LargeDropdown { id, .. } => id@,
        RibbonItem::ToolGrid { .. } => "GRID"@,
    }
}

pub open spec fn item_ids(items: Seq<RibbonItem>) -> Seq<Seq<char>> {
    items.map_values(|i: RibbonItem| item_id(i))
}

/// The ids of a grid's tools, column by column.
pub open spec fn grid_ids(columns: Seq<Vec<ToolDef>>) -> Seq<Seq<char>>
    decreases columns.len(),
{
    if columns.len() == 0 {
        Seq::<Seq<char>>::empty()
    } else {
        grid_ids(columns.drop_last()) + columns.last()@.map_values(|t: ToolDef| t.id@)
    }
}

/// The module of persistent geometric and dimensional constraints.
pub struct ParametricModule;

fn command(id: &'static str, label: &'static str, icon: &'static str) -> (t: ToolDef)
    ensures
        t.id == id,
        t.label == label,
        t.icon == IconKind::Svg(icon),
        runs(t, id@),
{
    ToolDef { id, label, icon: IconKind::Svg(icon), event: command_event(id) }
}

fn entry(id: &'static str, label: &'static str, icon: &'static str) -> (e: (
    &'static str,
    &'static str,
    IconKind,
))
    ensures
        e == (id, label, IconKind::Svg(icon)),
{
    (id, label, IconKind::Svg(icon))
}

impl ParametricModule {
    pub fn id(&self) -> (s: &'static str)
        ensures
            s@ == "parametric"@,
    {
        "parametric"
    }

    pub fn title(&self) -> (s: &'static str)
        ensures
            s@ == "Parametric"@,
    {
        "Parametric"
    }

    /// The module's panels: geometric constraints, dimensional constraints,
    /// and managing them.
    pub fn ribbon_groups(&self) -> (groups: Vec<RibbonGroup>)
        ensures
            groups@.len() == 3,
            groups@[0].title@ == "Geometric"@,
            groups@[1].title@ == "Dimensional"@,
            groups@[2].title@ == "Manage"@,
            item_ids(groups@[0].tools@) == seq![
                "AUTOCONSTRAIN"@,
                "GRID"@,
                "GCVISIBILITY"@,
                "GCSHOWALL"@,
                "GCHIDEALL"@,
            ],
            item_ids(groups@[1].tools@) == seq![
                "DC_LINEAR_MENU"@,
                "DCALIGNED"@,
                "GRID"@,
                "DCVISIBILITY"@,
                "DCSHOWALL"@,
                "DCHIDEALL"@,
            ],
            item_ids(groups@[2].tools@) == seq!["DELCONSTRAINT"@, "PARAMETERS"@],
            groups@[0].tools@[1] matches RibbonItem::ToolGrid { columns } && grid_ids(columns@)
                == seq![
                "CCONSTRAINT"@,
                "PCONSTRAINT"@,
                "TCONSTRAINT"@,
                "LCONSTRAINT"@,
                "QCONSTRAINT"@,
                "SMOOTHCONSTRAINT"@,
                "NCONSTRAINT"@,
                "HCONSTRAINT"@,
                "SYCONSTRAINT"@,
                "FXCONSTRAINT"@,
                "VCONSTRAINT"@,
                "ECONSTRAINT"@,
            ],
            groups@[1].tools@[0] matches RibbonItem::LargeDropdown { items, default, .. }
                && default@ == "DCLINEAR"@ && items@.map_values(
                |e: (&'static str, &'static str, IconKind)| e.0@,
            ) == seq!["DCLINEAR"@, "DCHORIZONTAL"@, "DCVERTICAL"@],
            groups@[1].tools@[2] matches RibbonItem::ToolGrid { columns } && grid_ids(columns@)
                == seq!["DCANGULAR"@, "DCDIAMETER"@, "DCRADIUS"@, "DCCONVERT"@],
    {
        let show = "icons/constrain/show.svg";
        let hide_all = "icons/constrain/hide_all.svg";
        let show_all = "icons/constrain/show_all.svg";
        let mut geometric: Vec<RibbonItem> = Vec::new();
        geometric.push(
            RibbonItem::LargeTool(command("AUTOCONSTRAIN", "Auto Constrain", "icons/constrain/auto.svg")),
        );
        let mut c0: Vec<ToolDef> = Vec::new();
        c0.push(command("CCONSTRAINT", "Coincident", "icons/constrain/coincident.svg"));
        c0.push(command("PCONSTRAINT", "Parallel", "icons/constrain/parallel.svg"));
        c0.push(command("TCONSTRAINT", "Tangent", "icons/constrain/tangent.svg"));
        let mut c1: Vec<ToolDef> = Vec::new();
        c1.push(command("LCONSTRAINT", "Colinear", "icons/constrain/colinear.svg"));
        c1.push(command("QCONSTRAINT", "Perpendicular", "icons/constrain/perpendicular.svg"));
        c1.push(command("SMOOTHCONSTRAINT", "Smooth", "icons/constrain/smooth.svg"));
        let mut c2: Vec<ToolDef> = Vec::new();
        c2.push(command("NCONSTRAINT", "Concentric", "icons/constrain/concentric.svg"));
        c2.push(command("HCONSTRAINT", "Horizontal", "icons/constrain/horizontal.svg"));
        c2.push(command("SYCONSTRAINT", "Symmetric", "icons/constrain/symmetric.svg"));
        let mut c3: Vec<ToolDef> = Vec::new();
        c3.push(command("FXCONSTRAINT", "Fix", "icons/constrain/fix.svg"));
        c3.push(command("VCONSTRAINT", "Vertical", "icons/constrain/vertical.svg"));
        c3.push(command("ECONSTRAINT", "Equal", "icons/constrain/equal.svg"));
        let ghost g0 = c0@.map_values(|t: ToolDef| t.id@);
        let ghost g1 = c1@.map_values(|t: ToolDef| t.id@);
        let ghost g2 = c2@.map_values(|t: ToolDef| t.id@);
        let ghost g3 = c3@.map_values(|t: ToolDef| t.id@);
        let mut columns: Vec<Vec<ToolDef>> = Vec::new();
        columns.push(c0);
        columns.push(c1);
        columns.push(c2);
        columns.push(c3);
        proof {
            reveal_strlit("CCONSTRAINT");
            reveal_strlit("PCONSTRAINT");
            reveal_strlit("TCONSTRAINT");
            reveal_strlit("LCONSTRAINT");
            reveal_strlit("QCONSTRAINT");
            reveal_strlit("SMOOTHCONSTRAINT");
            reveal_strlit("NCONSTRAINT");
            reveal_strlit("HCONSTRAINT");
            reveal_strlit("SYCONSTRAINT");
            reveal_strlit("FXCONSTRAINT");
            reveal_strlit("VCONSTRAINT");
            reveal_strlit("ECONSTRAINT");
            assert(columns@.drop_last().drop_last().drop_last().drop_last() =~= Seq::<Vec<ToolDef>>::empty());
            assert(grid_ids(columns@) =~= g0 + g1 + g2 + g3) by {
                reveal_with_fuel(grid_ids, 5);
                assert(columns@.drop_last().drop_last().drop_last() =~= seq![columns@[0]]);
                assert(columns@.drop_last().drop_last() =~= seq![columns@[0], columns@[1]]);
                assert(columns@.drop_last() =~= seq![columns@[0], columns@[1], columns@[2]]);
            }
        }
        geometric.push(RibbonItem::ToolGrid { columns });
        let mut gc_items: Vec<(&'static str, &'static str, IconKind)> = Vec::new();
        gc_items.push(entry("GCSHOW", "Show", show));
        gc_items.push(entry("GCHIDE", "Hide", hide_all));
        gc_items.push(entry("GCRESET", "Reset", show));
        geometric.push(
            RibbonItem::LabeledDropdown {
                id: "GCVISIBILITY",
                label: "Show/Hide",
                icon: IconKind::Svg(show),
                items: gc_items,
                default: "GCSHOW",
            },
        );
        geometric.push(RibbonItem::LabeledTool(command("GCSHOWALL", "Show All", show_all)));
        geometric.push(RibbonItem::LabeledTool(command("GCHIDEALL", "Hide All", hide_all)));

        let mut dimensional: Vec<RibbonItem> = Vec::new();
        let mut linear: Vec<(&'static str, &'static str, IconKind)> = Vec::new();
        linear.push(entry("DCLINEAR", "Linear", "icons/constrain/linear.svg"));
        linear.push(entry("DCHORIZONTAL", "Horizontal", "icons/constrain/dim_horizontal.svg"));
        linear.push(entry("DCVERTICAL", "Vertical", "icons/constrain/dim_vertical.svg"));
        dimensional.push(
            RibbonItem::LargeDropdown {
                id: "DC_LINEAR_MENU",
                label: "Linear",
                icon: IconKind::Svg("icons/constrain/linear.svg"),
                items: linear,
                default: "DCLINEAR",
            },
        );
        dimensional.push(
            RibbonItem::LargeTool(command("DCALIGNED", "Aligned", "icons/constrain/aligned.svg")),
        );
        let mut d0: Vec<ToolDef> = Vec::new();
        d0.push(command("DCANGULAR", "Angular", "icons/constrain/angular.svg"));
        d0.push(command("DCDIAMETER", "Diameter", "icons/constrain/diameter.svg"));
        let mut d1: Vec<ToolDef> = Vec::new();
        d1.push(command("DCRADIUS", "Radius", "icons/constrain/radius.svg"));
        d1.push(command("DCCONVERT", "Convert", "icons/constrain/convert.svg"));
        let ghost h0 = d0@.map_values(|t: ToolDef| t.id@);
        let ghost h1 = d1@.map_values(|t: ToolDef| t.id@);
        let mut dcolumns: Vec<Vec<ToolDef>> = Vec::new();
        dcolumns.push(d0);
        dcolumns.push(d1);
        proof {
            reveal_strlit("DCANGULAR");
            reveal_strlit("DCDIAMETER");
            reveal_strlit("DCRADIUS");
            reveal_strlit("DCCONVERT");
            assert(dcolumns@.drop_last().drop_last() =~= Seq::<Vec<ToolDef>>::empty());
            assert(grid_ids(dcolumns@) =~= h0 + h1) by {
                reveal_with_fuel(grid_ids, 3);
                assert(dcolumns@.drop_last() =~= seq![dcolumns@[0]]);
            }
        }
        dimensional.push(RibbonItem::ToolGrid { columns: dcolumns });
        let mut dc_items: Vec<(&'static str, &'static str, IconKind)> = Vec::new();
        dc_items.push(entry("DCSHOW", "Show", show));
        dc_items.push(entry("DCHIDE", "Hide", hide_all));
        dimensional.push(
            RibbonItem::LabeledDropdown {
                id: "DCVISIBILITY",
                label: "Show/Hide",
                icon: IconKind::Svg(show),
                items: dc_items,
                default: "DCSHOW",
            },
        );
        dimensional.push(RibbonItem::LabeledTool(command("DCSHOWALL", "Show All", show_all)));
        dimensional.push(RibbonItem::LabeledTool(command("DCHIDEALL", "Hide All", hide_all)));

        let mut manage: Vec<RibbonItem> = Vec::new();
        manage.push(
            RibbonItem::LargeTool(
                command("DELCONSTRAINT", "Delete Constraints", "icons/constrain/delete.svg"),
            ),
        );
        manage.push(
            RibbonItem::LargeTool(
                command("PARAMETERS", "Parameters Manager", "icons/constrain/parameters.svg"),
            ),
        );
        let ghost gi = item_ids(geometric@);
        let ghost di = item_ids(dimensional@);
        let ghost mi = item_ids(manage@);
        proof {
            reveal_strlit("AUTOCONSTRAIN");
            reveal_strlit("GRID");
            reveal_strlit("GCVISIBILITY");
            reveal_strlit("GCSHOWALL");
            reveal_strlit("GCHIDEALL");
            reveal_strlit("DC_LINEAR_MENU");
            reveal_strlit("DCALIGNED");
            reveal_strlit("DCVISIBILITY");
            reveal_strlit("DCSHOWALL");
            reveal_strlit("DCHIDEALL");
            reveal_strlit("DELCONSTRAINT");
            reveal_strlit("PARAMETERS");
            reveal_strlit("DCLINEAR");
            reveal_strlit("DCHORIZONTAL");
            reveal_strlit("DCVERTICAL");
            assert(gi =~= seq![
                "AUTOCONSTRAIN"@,
                "GRID"@,
                "GCVISIBILITY"@,
                "GCSHOWALL"@,
                "GCHIDEALL"@,
            ]);
            assert(di =~= seq![
                "DC_LINEAR_MENU"@,
                "DCALIGNED"@,
                "GRID"@,
                "DCVISIBILITY"@,
                "DCSHOWALL"@,
                "DCHIDEALL"@,
            ]);
            assert(mi =~= seq!["DELCONSTRAINT"@, "PARAMETERS"@]);
        }
        let mut groups: Vec<RibbonGroup> = Vec::new();
        groups.push(RibbonGroup { title: "Geometric", tools: geometric });
        groups.push(RibbonGroup { title: "Dimensional", tools: dimensional });
        groups.push(RibbonGroup { title: "Manage", tools: manage });
        proof {
            reveal_strlit("Geometric");
            reveal_strlit("Dimensional");
            reveal_strlit("Manage");
            let items = groups@[1].tools@[0]->LargeDropdown_items;
            assert(items@.map_values(|e: (&'static str, &'static str, IconKind)| e.0@) =~= seq![
                "DCLINEAR"@,
                "DCHORIZONTAL"@,
                "DCVERTICAL"@,
            ]);
        }
        groups
    }
}

} // verus!
