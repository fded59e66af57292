use pid_legend::ribbon::{
    group_tool, legend_tool, tag_tool, ungroup_tool, ModuleEvent, ParametricModule, RibbonItem,
};

fn item_id(item: &RibbonItem) -> &'static str {
    match item {
        RibbonItem::Tool(tool) | RibbonItem::LabeledTool(tool) | RibbonItem::LargeTool(tool) => tool.id,
        RibbonItem::Dropdown { id, .. }
        | RibbonItem::LabeledDropdown { id, .. }
        | RibbonItem::LargeDropdown { id, .. } => id,
        RibbonItem::ToolGrid { .. } => "GRID",
    }
}

#[test]
fn ribbon_uses_geometry_dimension_and_manage_panels() {
    let groups = ParametricModule.ribbon_groups();

    assert_eq!(
        groups.iter().map(|group| group.title).collect::<Vec<_>>(),
        ["Geometric", "Dimensional", "Manage"]
    );
    assert_eq!(
        groups[0].tools.iter().map(item_id).collect::<Vec<_>>(),
        ["AUTOCONSTRAIN", "GRID", "GCVISIBILITY", "GCSHOWALL", "GCHIDEALL"]
    );
    assert_eq!(
        groups[1].tools.iter().map(item_id).collect::<Vec<_>>(),
        ["DC_LINEAR_MENU", "DCALIGNED", "GRID", "DCVISIBILITY", "DCSHOWALL", "DCHIDEALL"]
    );
    assert_eq!(groups[2].tools.iter().map(item_id).collect::<Vec<_>>(), ["DELCONSTRAINT", "PARAMETERS"]);

    let RibbonItem::LargeDropdown { items, default, .. } = &groups[1].tools[0] else {
        panic!("linear dimensional constraint must be a split dropdown");
    };
    assert_eq!(*default, "DCLINEAR");
    assert_eq!(
        items.iter().map(|(id, _, _)| *id).collect::<Vec<_>>(),
        ["DCLINEAR", "DCHORIZONTAL", "DCVERTICAL"]
    );
    let RibbonItem::ToolGrid { columns } = &groups[0].tools[1] else { panic!("geometry grid") };
    assert_eq!(
        columns.iter().flatten().map(|tool| tool.id).collect::<Vec<_>>(),
        [
            "CCONSTRAINT", "PCONSTRAINT", "TCONSTRAINT", "LCONSTRAINT", "QCONSTRAINT", "SMOOTHCONSTRAINT",
            "NCONSTRAINT", "HCONSTRAINT", "SYCONSTRAINT", "FXCONSTRAINT", "VCONSTRAINT", "ECONSTRAINT",
        ]
    );
    let RibbonItem::ToolGrid { columns } = &groups[1].tools[2] else { panic!("dimension grid") };
    assert_eq!(
        columns.iter().flatten().map(|tool| tool.id).collect::<Vec<_>>(),
        ["DCANGULAR", "DCDIAMETER", "DCRADIUS", "DCCONVERT"]
    );
}

// ── the library's own checks ────────────────────────────────────────────

#[test]
fn the_pid_tools_run_their_commands() {
    let expect = [
        (legend_tool(), "PIDLEGEND", "PIDLEGEND LIST"),
        (tag_tool(), "PIDTAG", "PIDTAG"),
        (group_tool(), "PIDGROUP", "PIDGROUP GROUP"),
        (ungroup_tool(), "PIDUNGROUP", "PIDGROUP OFF"),
    ];
    for (tool, id, command) in expect {
        assert_eq!(tool.id, id);
        assert_eq!(tool.event, ModuleEvent::Command(command.to_string()));
    }
    assert_eq!(ParametricModule.id(), "parametric");
    assert_eq!(ParametricModule.title(), "Parametric");
}
