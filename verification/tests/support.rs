use lower_ir::ir::{
    clone_exprs, AExpr, AExprKind, Carried, ExprIR, FileScan, FileScanOptions, FileType,
    FunctionIR, GroupbyOptions, IRAggExpr, IRNode, JoinArgs, JoinType, JoinValidation, OutputName,
    RowIndex, Scan, ScanSources, SinkType, IR,
};
use lower_ir::lowering::{can_lower, lower_ir, Lowering, Progress};
use lower_ir::model::LowerError;
use lower_ir::phys::{Frame, PhysNode, PhysNodeKey, PhysNodeKind, PhysNodes};
use lower_ir::pieces::{
    add_columns, build_filter_node, build_slice_node, filter_exprs, stack_exprs,
};
use lower_ir::protocol::{Reply, Request};
use lower_ir::schema::names_agree;
use lower_ir::store::CacheNodes;
use lower_ir::survey::{
    all_named, can_aggregate, can_end, can_scan, can_slice, can_start,
};
use polars_core::prelude::DataType;
use polars_core::schema::Schema;
use polars_error::PolarsError;
use polars_utils::arena::{Arena, Node};
use polars_utils::pl_str::PlSmallStr;
use std::sync::Arc;

fn schema(names: &[&str]) -> Arc<Schema> {
    let mut schema = Schema::with_capacity(names.len());
    for name in names {
        schema.insert(PlSmallStr::from_str(name), DataType::Int64);
    }
    Arc::new(schema)
}

fn carried(id: u64) -> Carried {
    Carried { id }
}

fn ir_node(names: &[&str], ir: IR) -> IRNode {
    IRNode { schema: schema(names), ir }
}

fn frame(names: &[&str]) -> IRNode {
    ir_node(
        names,
        IR::DataFrameScan { df: carried(1), schema: schema(names), output_schema: None },
    )
}

fn alias(node: usize, name: &str) -> ExprIR {
    ExprIR { node, output_name: OutputName::Alias(name.to_string()) }
}

fn expr(kind: AExprKind) -> AExpr {
    AExpr { kind, output_name: OutputName::ColumnLhs("c".to_string()) }
}

fn exprs() -> Arena<AExpr> {
    let mut exprs = Arena::new();
    exprs.add(expr(AExprKind::Column("c".to_string())));
    exprs.add(expr(AExprKind::Len));
    exprs.add(expr(AExprKind::Agg(IRAggExpr::Mean(0))));
    exprs.add(expr(AExprKind::Agg(IRAggExpr::Other(carried(0)))));
    exprs.add(expr(AExprKind::Agg(IRAggExpr::Mean(100))));
    exprs
}

/// Whether a plan that ends in this operation, over a frame at index 0, can be lowered.
fn can(names: &[&str], ir: IR) -> bool {
    let mut irs = Arena::new();
    irs.add(frame(&["a"]));
    let node = irs.add(ir_node(names, ir)).0;
    can_lower(node, &irs, &exprs(), &PhysNodes::new(), &CacheNodes::new(), false)
}

fn group_by(keys: Vec<ExprIR>, aggs: Vec<ExprIR>) -> IR {
    IR::GroupBy {
        input: 0,
        keys,
        aggs,
        apply: false,
        maintain_order: false,
        options: GroupbyOptions { dynamic: false, rolling: false, slice: None },
    }
}

fn scan(scan_type: FileScan) -> Scan {
    Scan {
        sources: ScanSources { paths: carried(0), count: 1, cloud_url: false },
        file_info: carried(0),
        hive_parts: None,
        output_schema: None,
        scan_type,
        predicate: None,
        file_options: FileScanOptions {
            slice: None,
            row_index: None,
            allow_missing_columns: false,
            rest: carried(0),
        },
    }
}

fn csv(comment_prefix: bool) -> FileScan {
    FileScan::Csv { options: carried(0), comment_prefix }
}

#[test]
fn negative_slices_are_not_supported() {
    assert!(can(&["a"], IR::Slice { input: 0, offset: 0, len: 1 }));
    assert!(!can(&["a"], IR::Slice { input: 0, offset: -1, len: 1 }));
    assert!(can(&["a"], IR::Union { inputs: vec![0], slice: Some((0, 1)) }));
    assert!(!can(&["a"], IR::Union { inputs: vec![0], slice: Some((-1, 1)) }));
    assert!(can_slice(None));
    assert!(can_slice(Some((0, 0))));
    assert!(!can_slice(Some((-1, 0))));
    assert!(can_end(&IR::Invalid));
    assert!(!can_end(&IR::Slice { input: 0, offset: -1, len: 1 }));
}

#[test]
fn only_ipc_files_are_written() {
    let sink = |file_type| IR::Sink {
        input: 0,
        payload: SinkType::File { path: carried(0), file_type },
    };
    assert!(can(&["a"], IR::Sink { input: 0, payload: SinkType::Memory }));
    assert!(can(&["a"], sink(FileType::Ipc(carried(0)))));
    assert!(!can(&["a"], sink(FileType::Csv(carried(0)))));
    assert!(!can(&["a"], sink(FileType::Parquet(carried(0)))));
    assert!(!can(&["a"], sink(FileType::Json(carried(0)))));
}

#[test]
fn some_operations_are_not_supported() {
    let function = FunctionIR::MergeSorted { function: carried(0) };
    assert!(!can(&["a"], IR::MapFunction { input: 0, function }));
    assert!(!can(&["a"], IR::PythonScan { options: carried(0) }));
    assert!(!can(&["a"], IR::Distinct { input: 0, options: carried(0) }));
    assert!(!can(&["a"], IR::ExtContext { input: 0, contexts: vec![] }));
    assert!(!can(&["a"], IR::Invalid));
    assert!(!can_start(&ir_node(&[], IR::Invalid), false));
    assert!(can_start(&frame(&[]), false));
}

#[test]
fn scans_are_supported_by_kind() {
    let supported = |scan: Scan| can(&["i", "a"], IR::Scan { scan });
    assert!(!supported(scan(FileScan::Other(carried(0)))));
    let mut empty = scan(FileScan::Other(carried(0)));
    empty.sources.count = 0;
    assert!(supported(empty));
    let ipc = FileScan::Ipc { options: carried(0) };
    assert!(supported(scan(ipc)));
    let mut hive = scan(ipc);
    hive.hive_parts = Some(carried(0));
    assert!(!supported(hive));
    let mut cloud = scan(ipc);
    cloud.sources.cloud_url = true;
    assert!(!supported(cloud));
    let mut missing = scan(ipc);
    missing.file_options.allow_missing_columns = true;
    assert!(!supported(missing));
    let mut negative = scan(ipc);
    negative.file_options.slice = Some((-1, 1));
    assert!(!supported(negative));
    let mut parquet = scan(FileScan::Parquet { options: carried(0) });
    parquet.hive_parts = Some(carried(0));
    parquet.sources.cloud_url = true;
    parquet.file_options.allow_missing_columns = true;
    parquet.file_options.slice = Some((-1, 1));
    assert!(supported(parquet));
    let mut from_end = scan(csv(false));
    from_end.file_options.slice = Some((-1, 1));
    assert!(supported(from_end));
    let mut from_end = scan(csv(true));
    from_end.file_options.slice = Some((-1, 1));
    assert!(!supported(from_end));
}

#[test]
fn row_index_is_the_first_column() {
    let mut numbered = scan(csv(true));
    numbered.file_options.row_index = Some(RowIndex { name: "i".to_string(), offset: 0 });
    assert!(can_scan(&frame(&["i", "a"]), &numbered, false));
    assert!(!can_scan(&frame(&["a", "i"]), &numbered, false));
    assert!(!can_scan(&frame(&[]), &numbered, false));
    let mut numbered = scan(csv(false));
    numbered.file_options.row_index = Some(RowIndex { name: "i".to_string(), offset: 0 });
    assert!(can_scan(&frame(&["a"]), &numbered, false));
    assert!(!can_scan(&frame(&["a"]), &numbered, true));
}

#[test]
fn groupings_are_supported_by_their_aggregations() {
    let key = || vec![alias(0, "k")];
    assert!(can(&["k"], group_by(key(), vec![])));
    assert!(can(&["k"], group_by(key(), vec![alias(1, "n"), alias(2, "mean")])));
    assert!(!can(&["k"], group_by(key(), vec![alias(0, "column")])));
    assert!(!can(&["k"], group_by(key(), vec![alias(3, "other")])));
    assert!(!can(&["k"], group_by(key(), vec![alias(4, "of nothing")])));
    assert!(!can(&["k"], group_by(key(), vec![alias(5, "nothing")])));
    assert!(can(&["k"], group_by(vec![], vec![alias(5, "nothing")])));
    let arena = exprs();
    assert!(can_aggregate(&vec![alias(0, "k"), alias(2, "mean")], 1, &arena));
    assert!(!can_aggregate(&vec![alias(0, "k"), alias(2, "mean")], 0, &arena));
    assert!(can_aggregate(&vec![], 9, &arena));
}

#[test]
fn groupings_by_windows_or_in_order_are_not_supported() {
    let grouping = |apply: bool, maintain_order: bool, dynamic: bool, rolling: bool| {
        can(
            &["k"],
            IR::GroupBy {
                input: 0,
                keys: vec![],
                aggs: vec![],
                apply,
                maintain_order,
                options: GroupbyOptions { dynamic, rolling, slice: None },
            },
        )
    };
    assert!(grouping(false, false, false, false));
    assert!(!grouping(true, false, false, false));
    assert!(!grouping(false, true, false, false));
    assert!(!grouping(false, false, true, false));
    assert!(!grouping(false, false, false, true));
}

#[test]
fn plans_have_to_be_complete_and_without_cycles() {
    assert!(!can(&["a"], IR::Slice { input: 5, offset: 0, len: 1 }));
    assert!(!can(&["a"], IR::Slice { input: 1, offset: 0, len: 1 }));
    let mut irs = Arena::new();
    irs.add(ir_node(&["a"], IR::Union { inputs: vec![2, 1], slice: None }));
    irs.add(ir_node(&["a"], IR::Slice { input: 0, offset: 0, len: 1 }));
    irs.add(frame(&["a"]));
    let check = |node: usize| {
        can_lower(node, &irs, &exprs(), &PhysNodes::new(), &CacheNodes::new(), false)
    };
    assert!(!check(0));
    assert!(!check(1));
    assert!(check(2));
    assert!(!check(3));
}

#[test]
fn what_is_not_reached_need_not_be_supported() {
    let mut irs = Arena::new();
    let bad = irs.add(ir_node(&["a"], IR::Distinct { input: 1, options: carried(0) })).0;
    let good = irs.add(frame(&["a"])).0;
    let keyless = irs
        .add(ir_node(
            &["a"],
            IR::GroupBy {
                input: good,
                keys: vec![],
                aggs: vec![],
                apply: false,
                maintain_order: false,
                options: GroupbyOptions { dynamic: false, rolling: false, slice: None },
            },
        ))
        .0;
    let union = |inputs: Vec<usize>| ir_node(&["a"], IR::Union { inputs, slice: Some((-1, 1)) });
    let fails_first = irs.add(union(vec![keyless, bad])).0;
    let bad_first = irs.add(union(vec![bad, keyless])).0;
    let cached = irs.add(ir_node(&["a"], IR::Cache { input: bad, id: 3 })).0;
    let mut phys = PhysNodes::new();
    let mut cache = CacheNodes::new();
    let mut arena = exprs();
    assert!(can_lower(fails_first, &irs, &arena, &phys, &cache, false));
    assert!(!can_lower(bad_first, &irs, &arena, &phys, &cache, false));
    assert!(!can_lower(cached, &irs, &arena, &phys, &cache, false));
    let progress = lower_ir(fails_first, &irs, &mut arena, &mut phys, &mut cache, false);
    assert!(matches!(progress, Progress::Done(Err(LowerError::NoGroupByKeys))));
    let key = phys.insert(PhysNode::new(schema(&["a"]), PhysNodeKind::Expression(carried(0))));
    cache.insert(3, key);
    assert!(can_lower(cached, &irs, &arena, &phys, &cache, false));
}

#[test]
fn lowered_parts_have_to_be_there() {
    let mut irs = Arena::new();
    let node = irs.add(frame(&["a"])).0;
    let mut other = PhysNodes::new();
    let key = other.insert(PhysNode::new(schema(&["a"]), PhysNodeKind::Expression(carried(0))));
    let mut cache = CacheNodes::new();
    cache.insert(3, key);
    assert!(!cache.all_in(&PhysNodes::new()));
    assert!(cache.all_in(&other));
    assert!(!can_lower(node, &irs, &exprs(), &PhysNodes::new(), &cache, false));
    assert!(can_lower(node, &irs, &exprs(), &other, &cache, false));
}

fn ask(progress: Progress<'_>) -> (Request, Lowering<'_>) {
    match progress {
        Progress::Done(_) => panic!("done"),
        Progress::Ask(request, lowering) => (request, lowering),
    }
}

/// Starts lowering a plan that ends in this operation over a frame, and tells which of some answers
/// to the first question can be used.
fn usable(ir: IR, replies: Vec<fn(PhysNodeKey, PhysNodeKey) -> Reply>) -> Vec<bool> {
    let mut irs = Arena::new();
    irs.add(frame(&["a"]));
    let node = irs.add(ir_node(&["a"], ir)).0;
    let mut arena = exprs();
    let mut phys = PhysNodes::new();
    let mut cache = CacheNodes::new();
    assert!(can_lower(node, &irs, &arena, &phys, &cache, false));
    let (_, lowering) =
        ask(lower_ir(node, &irs, &mut arena, &mut phys, &mut cache, false));
    let kind = || PhysNodeKind::Expression(carried(0));
    let live = phys.insert(PhysNode::new(schema(&["a"]), kind()));
    let mut other = PhysNodes::new();
    let mut dead = other.insert(PhysNode::new(schema(&["a"]), kind()));
    while phys.contains_key(dead) {
        dead = other.insert(PhysNode::new(schema(&["a"]), kind()));
    }
    replies
        .into_iter()
        .map(|reply| lowering.can_resume(&reply(live, dead), &arena, &phys, &cache))
        .collect()
}

fn failed(_: PhysNodeKey, _: PhysNodeKey) -> Reply {
    Reply::Failed(PolarsError::ComputeError("no".into()))
}

fn elementwise(_: PhysNodeKey, _: PhysNodeKey) -> Reply {
    Reply::Elementwise(true)
}

fn not_elementwise(_: PhysNodeKey, _: PhysNodeKey) -> Reply {
    Reply::Elementwise(false)
}

fn selected(live: PhysNodeKey, _: PhysNodeKey) -> Reply {
    Reply::Selected(live)
}

fn selected_dead(_: PhysNodeKey, dead: PhysNodeKey) -> Reply {
    Reply::Selected(dead)
}

fn lowered_none(live: PhysNodeKey, _: PhysNodeKey) -> Reply {
    Reply::Lowered { input: live, exprs: vec![] }
}

fn lowered_one(live: PhysNodeKey, _: PhysNodeKey) -> Reply {
    Reply::Lowered { input: live, exprs: vec![alias(0, "a")] }
}

fn lowered_dead(_: PhysNodeKey, dead: PhysNodeKey) -> Reply {
    Reply::Lowered { input: dead, exprs: vec![alias(0, "a")] }
}

fn lowered_two(live: PhysNodeKey, _: PhysNodeKey) -> Reply {
    Reply::Lowered { input: live, exprs: vec![alias(0, "a"), alias(0, "b")] }
}

fn lowered_to_nothing(live: PhysNodeKey, _: PhysNodeKey) -> Reply {
    Reply::Lowered { input: live, exprs: vec![alias(0, "a"), alias(99, "b")] }
}

#[test]
fn select_takes_a_node_of_the_plan() {
    assert_eq!(
        usable(
            IR::Select { input: 0, expr: vec![] },
            vec![selected, selected_dead, failed, elementwise, lowered_one],
        ),
        vec![true, false, true, false, false]
    );
}

#[test]
fn filter_takes_at_least_one_expression() {
    assert_eq!(
        usable(
            IR::Filter { input: 0, predicate: alias(0, "p") },
            vec![lowered_one, lowered_none, lowered_dead, failed, selected, elementwise],
        ),
        vec![true, false, false, true, false, false]
    );
}

#[test]
fn columns_without_names_have_to_be_elementwise() {
    assert_eq!(
        usable(
            IR::HStack { input: 0, exprs: vec![alias(0, "x")] },
            vec![elementwise, not_elementwise, failed, selected],
        ),
        vec![true, true, false, false]
    );
    let unnamed = ExprIR { node: 0, output_name: OutputName::Unset };
    assert!(!all_named(&vec![alias(0, "x"), unnamed.clone()]));
    assert!(all_named(&vec![alias(0, "x")]));
    assert_eq!(
        usable(IR::HStack { input: 0, exprs: vec![unnamed] }, vec![elementwise, not_elementwise]),
        vec![true, false]
    );
}

#[test]
fn grouping_reads_only_what_is_elementwise() {
    assert_eq!(
        usable(
            group_by(vec![alias(0, "k")], vec![alias(2, "mean")]),
            vec![elementwise, not_elementwise, failed],
        ),
        vec![true, false, false]
    );
}

#[test]
fn grouping_takes_all_keys() {
    assert_eq!(
        usable(
            group_by(vec![alias(0, "k")], vec![alias(1, "n")]),
            vec![
                lowered_none,
                lowered_one,
                lowered_two,
                lowered_dead,
                lowered_to_nothing,
                failed,
                selected,
            ],
        ),
        vec![false, true, true, false, false, true, false]
    );
    let negative = IR::GroupBy {
        input: 0,
        keys: vec![alias(0, "k")],
        aggs: vec![],
        apply: false,
        maintain_order: false,
        options: GroupbyOptions { dynamic: false, rolling: false, slice: Some((-1, 1)) },
    };
    assert_eq!(usable(negative, vec![lowered_one, failed]), vec![false, true]);
}

#[test]
fn join_takes_all_keys() {
    let args = JoinArgs {
        how: JoinType::Inner,
        validation: JoinValidation::ManyToMany,
        slice: None,
        rest: carried(0),
    };
    let join = IR::Join {
        input_left: 0,
        input_right: 0,
        left_on: vec![alias(0, "l")],
        right_on: vec![alias(0, "r")],
        args,
    };
    assert_eq!(
        usable(
            join,
            vec![lowered_none, lowered_one, lowered_two, lowered_dead, failed, elementwise],
        ),
        vec![false, true, true, false, true, false]
    );
}

#[test]
fn nodes_that_wait_have_to_stay() {
    let mut irs = Arena::new();
    irs.add(frame(&["a"]));
    irs.add(ir_node(&["a"], IR::Select { input: 0, expr: vec![] }));
    irs.add(ir_node(&["a"], IR::HConcat { inputs: vec![0, 1] }));
    let mut arena = exprs();
    let mut phys = PhysNodes::new();
    let mut cache = CacheNodes::new();
    let (_, lowering) = ask(lower_ir(2, &irs, &mut arena, &mut phys, &mut cache, false));
    let kind = || PhysNodeKind::Expression(carried(0));
    let live = phys.insert(PhysNode::new(schema(&["a"]), kind()));
    assert!(lowering.can_resume(&Reply::Selected(live), &arena, &phys, &cache));
    let mut other = PhysNodes::new();
    let only = other.insert(PhysNode::new(schema(&["a"]), kind()));
    assert!(phys.contains_key(only));
    assert!(!other.contains_key(live));
    assert!(!lowering.can_resume(&Reply::Selected(only), &arena, &PhysNodes::new(), &cache));
}

#[test]
fn joins_by_equal_keys() {
    for how in [JoinType::Inner, JoinType::Left, JoinType::Right, JoinType::Full] {
        assert!(how.is_equi());
    }
    assert!(!JoinType::Cross.is_equi());
    assert!(!JoinType::Other(carried(0)).is_equi());
    assert!(!JoinValidation::ManyToMany.needs_checks());
    assert!(JoinValidation::ManyToOne.needs_checks());
    assert!(JoinValidation::OneToMany.needs_checks());
    assert!(JoinValidation::OneToOne.needs_checks());
}

#[test]
fn aggregations_change_their_input() {
    let cases = [
        (
            IRAggExpr::Min { input: 1, propagate_nans: true },
            IRAggExpr::Min { input: 7, propagate_nans: true },
        ),
        (
            IRAggExpr::Max { input: 1, propagate_nans: false },
            IRAggExpr::Max { input: 7, propagate_nans: false },
        ),
        (IRAggExpr::Mean(1), IRAggExpr::Mean(7)),
        (IRAggExpr::Sum(1), IRAggExpr::Sum(7)),
        (IRAggExpr::Var(1, 2), IRAggExpr::Var(7, 2)),
        (IRAggExpr::Std(1, 3), IRAggExpr::Std(7, 3)),
    ];
    for (before, after) in cases {
        assert_eq!(before.get_input(), Some(1));
        assert_eq!(before.with_input(7), after);
    }
    let other = IRAggExpr::Other(carried(4));
    assert_eq!(other.get_input(), None);
    assert_eq!(other.with_input(7), other);
}

#[test]
fn operations_know_their_inputs() {
    let join = IR::Join {
        input_left: 4,
        input_right: 5,
        left_on: vec![],
        right_on: vec![],
        args: JoinArgs {
            how: JoinType::Cross,
            validation: JoinValidation::ManyToMany,
            slice: None,
            rest: carried(0),
        },
    };
    assert_eq!(join.count_inputs(), 2);
    assert_eq!((join.input(0), join.input(1), join.input(2)), (Some(4), Some(5), None));
    let union = IR::Union { inputs: vec![3, 2, 1], slice: None };
    assert_eq!(union.count_inputs(), 3);
    assert_eq!((union.input(0), union.input(2), union.input(3)), (Some(3), Some(1), None));
    let slice = IR::Slice { input: 8, offset: 0, len: 0 };
    assert_eq!(slice.count_inputs(), 1);
    assert_eq!((slice.input(0), slice.input(1)), (Some(8), None));
    assert_eq!(frame(&[]).ir.count_inputs(), 0);
    assert_eq!(frame(&[]).ir.input(0), None);
}

#[test]
fn output_names() {
    assert_eq!(OutputName::Unset.get(), None);
    for name in [
        OutputName::LiteralLhs("x".to_string()),
        OutputName::ColumnLhs("x".to_string()),
        OutputName::Alias("x".to_string()),
    ] {
        assert_eq!(name.get(), Some(&"x".to_string()));
        assert_eq!(name.clone(), name);
    }
    let list = vec![alias(1, "a"), alias(2, "b")];
    assert_eq!(clone_exprs(&list), list);
}

#[test]
fn lists_of_names_agree() {
    let list = |names: &[&str]| -> Vec<String> { names.iter().map(|n| n.to_string()).collect() };
    assert!(names_agree(&list(&[]), &list(&[])));
    assert!(names_agree(&list(&["a", "b"]), &list(&["a", "b"])));
    assert!(!names_agree(&list(&["a", "b"]), &list(&["b", "a"])));
    assert!(!names_agree(&list(&["a"]), &list(&["a", "b"])));
}

#[test]
fn pieces_of_a_plan() {
    let mut phys = PhysNodes::new();
    let mut arena: Arena<AExpr> = Arena::new();
    assert_eq!(phys.len(), 0);
    let source = phys.insert(PhysNode::new(
        schema(&["a", "b"]),
        PhysNodeKind::InMemorySource { df: Frame::Given(carried(2)) },
    ));
    assert!(phys.contains_key(source));
    let slice = build_slice_node(source, 7, 8, &mut phys);
    assert!(matches!(
        phys.get(slice).kind,
        PhysNodeKind::StreamingSlice { input, offset: 7, length: 8 } if input == source
    ));
    let columns = add_columns(&vec!["x".to_string(), "y".to_string()], &mut arena);
    assert_eq!(columns.len(), 2);
    assert_eq!(columns[1].node, 1);
    assert_eq!(arena.get(Node(1)).kind, AExprKind::Column("y".to_string()));
    let all = filter_exprs(slice, &alias(9, "p"), &mut arena, &phys);
    assert_eq!(all.len(), 3);
    assert_eq!((all[0].node, all[1].node), (2, 3));
    assert_eq!(all[2], alias(9, "p"));
    let (filter, rest) = build_filter_node(slice, all, &mut phys);
    assert_eq!(rest.len(), 2);
    assert!(matches!(
        &phys.get(filter).kind,
        PhysNodeKind::Filter { input, predicate } if *input == slice && predicate.node == 9
    ));
    let stacked = stack_exprs(filter, &vec![alias(5, "c"), alias(6, "a")], &mut arena, &phys);
    assert_eq!(stacked[0], alias(6, "a"));
    assert_eq!(stacked[1].output_name, OutputName::ColumnLhs("b".to_string()));
    assert_eq!(stacked[1].node, 5);
    assert_eq!(stacked[2], alias(5, "c"));
    assert_eq!(stacked.len(), 3);
}

#[test]
fn failures_can_be_handed_on_in_any_world() {
    let mut irs = Arena::new();
    irs.add(frame(&["a"]));
    irs.add(ir_node(&["a"], IR::Select { input: 0, expr: vec![] }));
    irs.add(ir_node(&["a"], IR::HConcat { inputs: vec![0, 1] }));
    let mut arena = exprs();
    let mut phys = PhysNodes::new();
    let mut cache = CacheNodes::new();
    let (_, lowering) = ask(lower_ir(2, &irs, &mut arena, &mut phys, &mut cache, false));
    let mut other = PhysNodes::new();
    let reply = || Reply::Failed(PolarsError::ComputeError("no".into()));
    assert!(lowering.can_resume(&reply(), &arena, &other, &cache));
    let progress = lowering.resume(reply(), &mut arena, &mut other, &mut cache);
    assert!(matches!(
        progress,
        Progress::Done(Err(LowerError::Polars(PolarsError::ComputeError(_))))
    ));
    assert_eq!(other.len(), 0);
}
