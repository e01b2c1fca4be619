use lower_ir::ir::{
    AExpr, AExprKind, Carried, ExprIR, FileScan, FileScanOptions, FileType, FunctionIR,
    GroupbyOptions, IRAggExpr, IRNode, JoinArgs, JoinType, JoinValidation, OutputName, RowIndex,
    Scan, ScanSources, SinkType, IR,
};
use lower_ir::lowering::{can_lower, lower_ir, Lowering, Progress};
use lower_ir::model::LowerError;
use lower_ir::phys::{Frame, PhysNode, PhysNodeKey, PhysNodeKind, PhysNodes};
use lower_ir::protocol::{Reply, Request};
use lower_ir::store::CacheNodes;
use polars_core::prelude::DataType;
use polars_core::schema::Schema;
use polars_error::PolarsError;
use polars_utils::arena::{Arena, Node};
use polars_utils::pl_str::PlSmallStr;
use std::sync::Arc;

struct Setting {
    irs: Arena<IRNode>,
    exprs: Arena<AExpr>,
    phys: PhysNodes,
    cache: CacheNodes,
}

fn setting() -> Setting {
    Setting {
        irs: Arena::new(),
        exprs: Arena::new(),
        phys: PhysNodes::new(),
        cache: CacheNodes::new(),
    }
}

fn schema(names: &[&str]) -> Arc<Schema> {
    let mut schema = Schema::with_capacity(names.len());
    for name in names {
        schema.insert(PlSmallStr::from_str(name), DataType::Int64);
    }
    Arc::new(schema)
}

fn carried(id: u64) -> Carried {
    Carried { id }
}

fn add(s: &mut Setting, names: &[&str], ir: IR) -> usize {
    s.irs.add(IRNode { schema: schema(names), ir }).0
}

fn frame(s: &mut Setting, names: &[&str]) -> usize {
    let df = IR::DataFrameScan { df: carried(1), schema: schema(names), output_schema: None };
    add(s, names, df)
}

fn alias(node: usize, name: &str) -> ExprIR {
    ExprIR { node, output_name: OutputName::Alias(name.to_string()) }
}

fn column_lhs(node: usize, name: &str) -> ExprIR {
    ExprIR { node, output_name: OutputName::ColumnLhs(name.to_string()) }
}

fn column(s: &mut Setting, name: &str) -> usize {
    column_in(&mut s.exprs, name)
}

fn column_in(exprs: &mut Arena<AExpr>, name: &str) -> usize {
    exprs
        .add(AExpr {
            kind: AExprKind::Column(name.to_string()),
            output_name: OutputName::ColumnLhs(name.to_string()),
        })
        .0
}

fn agg(s: &mut Setting, agg: IRAggExpr, name: &str) -> usize {
    s.exprs
        .add(AExpr {
            kind: AExprKind::Agg(agg),
            output_name: OutputName::ColumnLhs(name.to_string()),
        })
        .0
}

fn len_expr(s: &mut Setting) -> usize {
    s.exprs
        .add(AExpr {
            kind: AExprKind::Len,
            output_name: OutputName::ColumnLhs("len".to_string()),
        })
        .0
}

fn begin(s: &mut Setting, node: usize) -> Progress<'_> {
    begin_csv(s, node, false)
}

fn begin_csv(s: &mut Setting, node: usize, csv_slice_disabled: bool) -> Progress<'_> {
    assert!(can_lower(node, &s.irs, &s.exprs, &s.phys, &s.cache, csv_slice_disabled));
    lower_ir(node, &s.irs, &mut s.exprs, &mut s.phys, &mut s.cache, csv_slice_disabled)
}

fn done(progress: Progress<'_>) -> Result<PhysNodeKey, LowerError> {
    match progress {
        Progress::Done(result) => result,
        Progress::Ask(request, _) => panic!("asked {:?}", request),
    }
}

fn ask(progress: Progress<'_>) -> (Request, Lowering<'_>) {
    match progress {
        Progress::Done(_) => panic!("done"),
        Progress::Ask(request, lowering) => (request, lowering),
    }
}

fn names(node: &PhysNode) -> Vec<String> {
    node.output_schema.iter_names().map(|name| name.to_string()).collect()
}

fn stand_in(phys: &mut PhysNodes, names: &[&str], id: u64) -> PhysNodeKey {
    phys.insert(PhysNode::new(schema(names), PhysNodeKind::Expression(carried(id))))
}

fn failure() -> Reply {
    Reply::Failed(PolarsError::ComputeError("no".into()))
}

fn is_failure(error: LowerError) -> bool {
    match error {
        LowerError::Polars(PolarsError::ComputeError(text)) => text.to_string() == "no",
        _ => false,
    }
}

#[test]
fn frame_becomes_a_source() {
    let mut s = setting();
    let node = frame(&mut s, &["a", "b"]);
    let key = done(begin(&mut s, node)).unwrap();
    let lowered = s.phys.get(key);
    assert_eq!(names(lowered), vec!["a", "b"]);
    match &lowered.kind {
        PhysNodeKind::InMemorySource { df: Frame::Given(df) } => assert_eq!(*df, carried(1)),
        other => panic!("{:?}", other),
    }
    assert_eq!(s.phys.len(), 1);
}

#[test]
fn frame_is_projected_where_columns_differ() {
    let mut s = setting();
    for wanted in [vec!["a"], vec!["b", "a"], vec!["a", "c"]] {
        let df = IR::DataFrameScan {
            df: carried(7),
            schema: schema(&["a", "b"]),
            output_schema: Some(schema(&wanted)),
        };
        let node = add(&mut s, &wanted, df);
        let key = done(begin(&mut s, node)).unwrap();
        let lowered = s.phys.get(key);
        assert_eq!(names(lowered), wanted);
        match &lowered.kind {
            PhysNodeKind::SimpleProjection { input, columns } => {
                assert_eq!(*columns, wanted);
                assert_eq!(names(s.phys.get(*input)), vec!["a", "b"]);
                assert!(matches!(
                    s.phys.get(*input).kind,
                    PhysNodeKind::InMemorySource { df: Frame::Given(Carried { id: 7 }) }
                ));
            },
            other => panic!("{:?}", other),
        }
    }
    assert_eq!(s.phys.len(), 6);
}

#[test]
fn frame_is_not_projected_to_its_own_columns() {
    let mut s = setting();
    let df = IR::DataFrameScan {
        df: carried(7),
        schema: schema(&["a", "b"]),
        output_schema: Some(schema(&["a", "b"])),
    };
    let node = add(&mut s, &["a", "b"], df);
    let key = done(begin(&mut s, node)).unwrap();
    assert!(matches!(s.phys.get(key).kind, PhysNodeKind::InMemorySource { .. }));
    assert_eq!(s.phys.len(), 1);
}

#[test]
fn projection_names_its_columns() {
    let mut s = setting();
    let input = frame(&mut s, &["a", "b"]);
    let ir = IR::SimpleProjection { input, columns: schema(&["b"]) };
    let node = add(&mut s, &["b"], ir);
    let key = done(begin(&mut s, node)).unwrap();
    match &s.phys.get(key).kind {
        PhysNodeKind::SimpleProjection { input, columns } => {
            assert_eq!(*columns, vec!["b"]);
            assert_eq!(names(s.phys.get(*input)), vec!["a", "b"]);
        },
        other => panic!("{:?}", other),
    }
    assert_eq!(names(s.phys.get(key)), vec!["b"]);
}

#[test]
fn slice_keeps_the_schema() {
    let mut s = setting();
    let input = frame(&mut s, &["a", "b"]);
    let node = add(&mut s, &["other"], IR::Slice { input, offset: 3, len: 4 });
    let key = done(begin(&mut s, node)).unwrap();
    match s.phys.get(key).kind {
        PhysNodeKind::StreamingSlice { input, offset, length } => {
            assert_eq!((offset, length), (3, 4));
            assert!(matches!(s.phys.get(input).kind, PhysNodeKind::InMemorySource { .. }));
        },
        _ => panic!("not a slice"),
    }
    assert_eq!(names(s.phys.get(key)), vec!["a", "b"]);
}

#[test]
fn select_is_made_by_the_service() {
    let mut s = setting();
    let a = column(&mut s, "a");
    let input = frame(&mut s, &["a"]);
    let node = add(&mut s, &["x"], IR::Select { input, expr: vec![alias(a, "x")] });
    let (request, lowering) = ask(lower_ir(
        node,
        &s.irs,
        &mut s.exprs,
        &mut s.phys,
        &mut s.cache,
        false,
    ));
    match request {
        Request::BuildSelect { input, selectors } => {
            assert_eq!(selectors, vec![alias(a, "x")]);
            assert_eq!(names(s.phys.get(input)), vec!["a"]);
        },
        other => panic!("{:?}", other),
    }
    let made = stand_in(&mut s.phys, &["x"], 5);
    let reply = Reply::Selected(made);
    assert!(lowering.can_resume(&reply, &s.exprs, &s.phys, &s.cache));
    let key = done(lowering.resume(reply, &mut s.exprs, &mut s.phys, &mut s.cache)).unwrap();
    assert_eq!(key, made);
    assert_eq!(s.phys.len(), 2);
}

#[test]
fn failure_of_the_service_ends_a_select() {
    let mut s = setting();
    let input = frame(&mut s, &["a"]);
    let select = add(&mut s, &[], IR::Select { input, expr: vec![] });
    let node = add(&mut s, &[], IR::Slice { input: select, offset: 0, len: 1 });
    let (_, lowering) = ask(lower_ir(
        node,
        &s.irs,
        &mut s.exprs,
        &mut s.phys,
        &mut s.cache,
        false,
    ));
    assert!(lowering.can_resume(&failure(), &s.exprs, &s.phys, &s.cache));
    let error = done(lowering.resume(failure(), &mut s.exprs, &mut s.phys, &mut s.cache));
    assert!(is_failure(error.unwrap_err()));
    assert_eq!(s.phys.len(), 1);
}

#[test]
fn elementwise_columns_extend_the_input() {
    let mut s = setting();
    let a = column(&mut s, "a");
    let b = column(&mut s, "b");
    let input = frame(&mut s, &["a", "b"]);
    let exprs = vec![alias(a, "x"), alias(b, "y")];
    let node = add(&mut s, &["a", "b", "x", "y"], IR::HStack { input, exprs });
    let (request, lowering) = ask(lower_ir(
        node,
        &s.irs,
        &mut s.exprs,
        &mut s.phys,
        &mut s.cache,
        false,
    ));
    assert!(matches!(request, Request::IsElementwise { node } if node == a));
    assert_eq!(s.phys.len(), 0);
    let yes = Reply::Elementwise(true);
    assert!(lowering.can_resume(&yes, &s.exprs, &s.phys, &s.cache));
    let (request, lowering) =
        ask(lowering.resume(yes, &mut s.exprs, &mut s.phys, &mut s.cache));
    assert!(matches!(request, Request::IsElementwise { node } if node == b));
    let yes = Reply::Elementwise(true);
    let key = done(lowering.resume(yes, &mut s.exprs, &mut s.phys, &mut s.cache)).unwrap();
    match &s.phys.get(key).kind {
        PhysNodeKind::Select { input, selectors, extend_original } => {
            assert_eq!(names(s.phys.get(*input)), vec!["a", "b"]);
            assert_eq!(*selectors, vec![alias(a, "x"), alias(b, "y")]);
            assert!(*extend_original);
        },
        other => panic!("{:?}", other),
    }
    assert_eq!(s.exprs.len(), 2);
}

#[test]
fn no_columns_are_elementwise() {
    let mut s = setting();
    let input = frame(&mut s, &["a"]);
    let node = add(&mut s, &["a"], IR::HStack { input, exprs: vec![] });
    let key = done(begin(&mut s, node)).unwrap();
    assert!(matches!(
        &s.phys.get(key).kind,
        PhysNodeKind::Select { selectors, extend_original: true, .. } if selectors.is_empty()
    ));
}

#[test]
fn other_columns_are_selected_anew() {
    let mut s = setting();
    let x = column(&mut s, "x");
    let y = column(&mut s, "y");
    let input = frame(&mut s, &["a", "b", "c"]);
    let exprs = vec![alias(x, "n"), alias(y, "b"), alias(x, "m"), alias(y, "n")];
    let node = add(&mut s, &["a", "b", "c", "n", "m"], IR::HStack { input, exprs });
    let (request, lowering) = ask(lower_ir(
        node,
        &s.irs,
        &mut s.exprs,
        &mut s.phys,
        &mut s.cache,
        false,
    ));
    assert!(matches!(request, Request::IsElementwise { node } if node == x));
    let no = Reply::Elementwise(false);
    assert!(lowering.can_resume(&no, &s.exprs, &s.phys, &s.cache));
    let (request, lowering) = ask(lowering.resume(no, &mut s.exprs, &mut s.phys, &mut s.cache));
    match request {
        Request::BuildSelect { input, selectors } => {
            assert_eq!(names(s.phys.get(input)), vec!["a", "b", "c"]);
            assert_eq!(
                selectors,
                vec![
                    column_lhs(2, "a"),
                    alias(y, "b"),
                    column_lhs(4, "c"),
                    alias(y, "n"),
                    alias(x, "m"),
                ]
            );
        },
        other => panic!("{:?}", other),
    }
    assert_eq!(s.exprs.len(), 5);
    assert_eq!(
        *s.exprs.get(Node(3)),
        AExpr {
            kind: AExprKind::Column("b".to_string()),
            output_name: OutputName::ColumnLhs("b".to_string()),
        }
    );
    let made = stand_in(&mut s.phys, &["a"], 1);
    let selected = Reply::Selected(made);
    assert_eq!(
        done(lowering.resume(selected, &mut s.exprs, &mut s.phys, &mut s.cache)).unwrap(),
        made
    );
}

#[test]
fn filter_lowers_columns_and_predicate_together() {
    let mut s = setting();
    let p = column(&mut s, "p");
    let input = frame(&mut s, &["a", "b"]);
    let node = add(&mut s, &["a", "b"], IR::Filter { input, predicate: alias(p, "keep") });
    let (request, lowering) = ask(lower_ir(
        node,
        &s.irs,
        &mut s.exprs,
        &mut s.phys,
        &mut s.cache,
        false,
    ));
    match request {
        Request::LowerExprs { input, exprs } => {
            assert_eq!(names(s.phys.get(input)), vec!["a", "b"]);
            assert_eq!(
                exprs,
                vec![column_lhs(1, "a"), column_lhs(2, "b"), alias(p, "keep")]
            );
        },
        other => panic!("{:?}", other),
    }
    let trans = stand_in(&mut s.phys, &["a", "b", "t"], 9);
    let lowered = Reply::Lowered {
        input: trans,
        exprs: vec![alias(7, "a"), alias(8, "b"), alias(9, "keep")],
    };
    assert!(lowering.can_resume(&lowered, &s.exprs, &s.phys, &s.cache));
    let (request, lowering) =
        ask(lowering.resume(lowered, &mut s.exprs, &mut s.phys, &mut s.cache));
    match request {
        Request::BuildSelect { input, selectors } => {
            assert_eq!(selectors, vec![alias(7, "a"), alias(8, "b")]);
            assert_eq!(names(s.phys.get(input)), vec!["a", "b", "t"]);
            match &s.phys.get(input).kind {
                PhysNodeKind::Filter { input, predicate } => {
                    assert_eq!(*input, trans);
                    assert_eq!(*predicate, alias(9, "keep"));
                },
                other => panic!("{:?}", other),
            }
        },
        other => panic!("{:?}", other),
    }
    let made = stand_in(&mut s.phys, &["a", "b"], 1);
    let selected = Reply::Selected(made);
    assert_eq!(
        done(lowering.resume(selected, &mut s.exprs, &mut s.phys, &mut s.cache)).unwrap(),
        made
    );
}

#[test]
fn failure_of_the_service_ends_a_filter() {
    let mut s = setting();
    let p = column(&mut s, "p");
    let input = frame(&mut s, &["a"]);
    let node = add(&mut s, &["a"], IR::Filter { input, predicate: alias(p, "p") });
    let (_, lowering) = ask(lower_ir(
        node,
        &s.irs,
        &mut s.exprs,
        &mut s.phys,
        &mut s.cache,
        false,
    ));
    let error = done(lowering.resume(failure(), &mut s.exprs, &mut s.phys, &mut s.cache));
    assert!(is_failure(error.unwrap_err()));
}

#[test]
fn sinks_take_their_input() {
    let mut s = setting();
    let input = frame(&mut s, &["a"]);
    let node = add(&mut s, &["a"], IR::Sink { input, payload: SinkType::Memory });
    let key = done(begin(&mut s, node)).unwrap();
    assert!(matches!(s.phys.get(key).kind, PhysNodeKind::InMemorySink { .. }));
    let file_type = FileType::Ipc(carried(4));
    let payload = SinkType::File { path: carried(3), file_type };
    let node = add(&mut s, &["a"], IR::Sink { input, payload });
    let key = done(begin(&mut s, node)).unwrap();
    match s.phys.get(key).kind {
        PhysNodeKind::FileSink { path, file_type, input } => {
            assert_eq!(path, carried(3));
            assert_eq!(file_type, FileType::Ipc(carried(4)));
            assert!(matches!(s.phys.get(input).kind, PhysNodeKind::InMemorySource { .. }));
        },
        _ => panic!("not a sink"),
    }
}

#[test]
fn functions_are_applied_as_they_can_be() {
    let mut s = setting();
    let input = frame(&mut s, &["a"]);
    let function = FunctionIR::RowIndex { name: "i".to_string(), offset: Some(2) };
    let node = add(&mut s, &["i", "a"], IR::MapFunction { input, function });
    let key = done(begin(&mut s, node)).unwrap();
    assert!(matches!(
        &s.phys.get(key).kind,
        PhysNodeKind::WithRowIndex { name, offset: Some(2), .. } if name == "i"
    ));
    let function = FunctionIR::Other { function: carried(8), streamable: true };
    let node = add(&mut s, &["a"], IR::MapFunction { input, function });
    let key = done(begin(&mut s, node)).unwrap();
    assert!(matches!(
        s.phys.get(key).kind,
        PhysNodeKind::StreamingMap { map: Carried { id: 8 }, .. }
    ));
    let function = FunctionIR::Other { function: carried(9), streamable: false };
    let node = add(&mut s, &["a"], IR::MapFunction { input, function });
    let key = done(begin(&mut s, node)).unwrap();
    assert!(matches!(
        s.phys.get(key).kind,
        PhysNodeKind::InMemoryMap { map: Carried { id: 9 }, .. }
    ));
}

#[test]
fn sort_is_handed_on() {
    let mut s = setting();
    let input = frame(&mut s, &["a"]);
    let ir = IR::Sort {
        input,
        by_column: vec![alias(0, "a")],
        slice: Some((-5, 2)),
        sort_options: carried(6),
    };
    let node = add(&mut s, &["a"], ir);
    let key = done(begin(&mut s, node)).unwrap();
    match &s.phys.get(key).kind {
        PhysNodeKind::Sort { by_column, slice, sort_options, .. } => {
            assert_eq!(*by_column, vec![alias(0, "a")]);
            assert_eq!(*slice, Some((-5, 2)));
            assert_eq!(*sort_options, carried(6));
        },
        other => panic!("{:?}", other),
    }
}

#[test]
fn union_keeps_the_order_of_its_inputs() {
    let mut s = setting();
    let first = frame(&mut s, &["a"]);
    let second = frame(&mut s, &["b"]);
    let inputs = vec![first, second, first];
    let node = add(&mut s, &["u"], IR::Union { inputs, slice: None });
    let key = done(begin(&mut s, node)).unwrap();
    match &s.phys.get(key).kind {
        PhysNodeKind::OrderedUnion { inputs } => {
            let all: Vec<Vec<String>> =
                inputs.iter().map(|input| names(s.phys.get(*input))).collect();
            assert_eq!(all, vec![vec!["a"], vec!["b"], vec!["a"]]);
            assert_ne!(inputs[0], inputs[2]);
        },
        other => panic!("{:?}", other),
    }
    assert_eq!(names(s.phys.get(key)), vec!["u"]);
    assert_eq!(s.phys.len(), 4);
}

#[test]
fn union_is_sliced_on_top() {
    let mut s = setting();
    let first = frame(&mut s, &["a"]);
    let node = add(&mut s, &["u"], IR::Union { inputs: vec![first], slice: Some((1, 2)) });
    let key = done(begin(&mut s, node)).unwrap();
    match s.phys.get(key).kind {
        PhysNodeKind::StreamingSlice { input, offset, length } => {
            assert_eq!((offset, length), (1, 2));
            assert!(matches!(s.phys.get(input).kind, PhysNodeKind::OrderedUnion { .. }));
        },
        _ => panic!("not a slice"),
    }
    assert_eq!(names(s.phys.get(key)), vec!["u"]);
}

#[test]
fn concatenation_extends_with_nulls() {
    let mut s = setting();
    let first = frame(&mut s, &["a"]);
    let second = frame(&mut s, &["b"]);
    let node = add(&mut s, &["a", "b"], IR::HConcat { inputs: vec![first, second] });
    let key = done(begin(&mut s, node)).unwrap();
    assert!(matches!(
        &s.phys.get(key).kind,
        PhysNodeKind::Zip { inputs, null_extend: true } if inputs.len() == 2
    ));
}

fn scan(scan_type: FileScan, count: usize) -> Scan {
    Scan {
        sources: ScanSources { paths: carried(10), count, cloud_url: false },
        file_info: carried(11),
        hive_parts: None,
        output_schema: Some(schema(&["o"])),
        scan_type,
        predicate: Some(alias(0, "p")),
        file_options: FileScanOptions {
            slice: Some((5, 6)),
            row_index: Some(RowIndex { name: "i".to_string(), offset: 3 }),
            allow_missing_columns: false,
            rest: carried(12),
        },
    }
}

#[test]
fn scan_of_no_files_is_an_empty_frame() {
    let mut s = setting();
    let node = add(&mut s, &["i", "a"], IR::Scan { scan: scan(FileScan::Other(carried(0)), 0) });
    let key = done(begin(&mut s, node)).unwrap();
    match &s.phys.get(key).kind {
        PhysNodeKind::InMemorySource { df: Frame::Empty(given) } => {
            assert_eq!(**given, *schema(&["i", "a"]));
        },
        other => panic!("{:?}", other),
    }
    assert_eq!(s.phys.len(), 1);
}

#[test]
fn parquet_reader_does_it_all() {
    let mut s = setting();
    let ir = IR::Scan { scan: scan(FileScan::Parquet { options: carried(1) }, 1) };
    let node = add(&mut s, &["i", "a"], ir);
    let key = done(begin(&mut s, node)).unwrap();
    match &s.phys.get(key).kind {
        PhysNodeKind::FileScan { scan } => {
            assert_eq!(scan.predicate, Some(alias(0, "p")));
            assert_eq!(scan.file_options.slice, Some((5, 6)));
            assert_eq!(scan.file_options.row_index.as_ref().unwrap().name, "i");
            assert_eq!(scan.file_options.rest, carried(12));
            assert_eq!(scan.file_info, carried(11));
            assert_eq!(scan.sources.paths, carried(10));
            assert_eq!(scan.scan_type, FileScan::Parquet { options: carried(1) });
        },
        other => panic!("{:?}", other),
    }
    assert_eq!(names(s.phys.get(key)), vec!["i", "a"]);
    assert_eq!(s.phys.len(), 1);
}

#[test]
fn ipc_is_filtered_by_a_node() {
    let mut s = setting();
    column(&mut s, "p");
    let ir = IR::Scan { scan: scan(FileScan::Ipc { options: carried(1) }, 1) };
    let node = add(&mut s, &["i", "a"], ir);
    let (request, _) = ask(lower_ir(
        node,
        &s.irs,
        &mut s.exprs,
        &mut s.phys,
        &mut s.cache,
        false,
    ));
    match request {
        Request::LowerExprs { input, exprs } => {
            assert_eq!(exprs, vec![column_lhs(1, "i"), column_lhs(2, "a"), alias(0, "p")]);
            match &s.phys.get(input).kind {
                PhysNodeKind::FileScan { scan } => {
                    assert_eq!(scan.predicate, None);
                    assert_eq!(scan.file_options.slice, Some((5, 6)));
                    assert!(scan.file_options.row_index.is_some());
                },
                other => panic!("{:?}", other),
            }
        },
        other => panic!("{:?}", other),
    }
}

#[test]
fn csv_without_comments_is_sliced_by_the_reader() {
    let mut s = setting();
    let scan_type = FileScan::Csv { options: carried(1), comment_prefix: false };
    let mut csv = scan(scan_type, 1);
    csv.predicate = None;
    let node = add(&mut s, &["i", "a"], IR::Scan { scan: csv });
    let key = done(begin(&mut s, node)).unwrap();
    match &s.phys.get(key).kind {
        PhysNodeKind::FileScan { scan } => {
            assert_eq!(scan.file_options.slice, Some((5, 6)));
            assert!(scan.file_options.row_index.is_some());
        },
        other => panic!("{:?}", other),
    }
}

fn numbered_then_sliced(s: &Setting, key: PhysNodeKey) {
    let numbered = match s.phys.get(key).kind {
        PhysNodeKind::StreamingSlice { input, offset: 5, length: 6 } => input,
        _ => panic!("not a slice"),
    };
    assert_eq!(names(s.phys.get(numbered)), vec!["i", "a"]);
    let read = match &s.phys.get(numbered).kind {
        PhysNodeKind::WithRowIndex { input, name, offset: Some(3) } => {
            assert_eq!(name, "i");
            *input
        },
        other => panic!("{:?}", other),
    };
    assert_eq!(names(s.phys.get(read)), vec!["a"]);
    match &s.phys.get(read).kind {
        PhysNodeKind::FileScan { scan } => {
            assert_eq!(scan.predicate, None);
            assert_eq!(scan.file_options.slice, None);
            assert!(scan.file_options.row_index.is_none());
            assert_eq!(scan.file_options.rest, carried(12));
        },
        other => panic!("{:?}", other),
    }
}

#[test]
fn csv_with_comments_is_numbered_sliced_and_filtered_in_this_order() {
    let mut s = setting();
    column(&mut s, "p");
    let scan_type = FileScan::Csv { options: carried(1), comment_prefix: true };
    let node = add(&mut s, &["i", "a"], IR::Scan { scan: scan(scan_type, 1) });
    let (request, _) = ask(lower_ir(
        node,
        &s.irs,
        &mut s.exprs,
        &mut s.phys,
        &mut s.cache,
        false,
    ));
    match request {
        Request::LowerExprs { input, exprs } => {
            assert_eq!(exprs.len(), 3);
            assert_eq!(exprs[2], alias(0, "p"));
            numbered_then_sliced(&s, input);
        },
        other => panic!("{:?}", other),
    }
    assert_eq!(s.phys.len(), 3);
}

#[test]
fn csv_is_not_sliced_by_the_reader_when_that_is_disabled() {
    let mut s = setting();
    let scan_type = FileScan::Csv { options: carried(1), comment_prefix: false };
    let mut csv = scan(scan_type, 1);
    csv.predicate = None;
    let node = add(&mut s, &["i", "a"], IR::Scan { scan: csv });
    let key = done(begin_csv(&mut s, node, true)).unwrap();
    numbered_then_sliced(&s, key);
}

#[test]
fn cached_part_is_lowered_once() {
    let mut s = setting();
    let part = frame(&mut s, &["a"]);
    let other = frame(&mut s, &["b"]);
    let first = add(&mut s, &["a"], IR::Cache { input: part, id: 42 });
    let again = add(&mut s, &["b"], IR::Cache { input: other, id: 42 });
    let node = add(&mut s, &["a"], IR::Union { inputs: vec![first, again, first], slice: None });
    let key = done(begin(&mut s, node)).unwrap();
    match &s.phys.get(key).kind {
        PhysNodeKind::OrderedUnion { inputs } => {
            assert_eq!(inputs[0], inputs[1]);
            assert_eq!(inputs[0], inputs[2]);
            assert_eq!(s.cache.get(42), Some(inputs[0]));
            assert_eq!(names(s.phys.get(inputs[0])), vec!["a"]);
        },
        other => panic!("{:?}", other),
    }
    assert_eq!(s.phys.len(), 2);
    let count = s.phys.len();
    assert_eq!(done(begin(&mut s, again)).unwrap(), s.cache.get(42).unwrap());
    assert_eq!(s.phys.len(), count);
    assert_eq!(s.cache.get(41), None);
}

fn group_by(input: usize, keys: Vec<ExprIR>, aggs: Vec<ExprIR>) -> IR {
    IR::GroupBy {
        input,
        keys,
        aggs,
        apply: false,
        maintain_order: false,
        options: GroupbyOptions { dynamic: false, rolling: false, slice: None },
    }
}

#[test]
fn grouping_without_keys_is_refused() {
    let mut s = setting();
    let input = frame(&mut s, &["a"]);
    let group = add(&mut s, &["a"], group_by(input, vec![], vec![]));
    let error = done(begin(&mut s, group)).unwrap_err();
    assert!(matches!(error, LowerError::NoGroupByKeys));
    assert_eq!(
        error.message().unwrap(),
        "at least one key is required in a group_by operation"
    );
    assert_eq!(s.phys.len(), 0);
    let node = add(&mut s, &["a"], IR::Slice { input: group, offset: 0, len: 1 });
    assert!(matches!(done(begin(&mut s, node)), Err(LowerError::NoGroupByKeys)));
    assert!(LowerError::Polars(PolarsError::ComputeError("x".into())).message().is_none());
}

#[test]
fn grouping_lowers_keys_and_what_is_aggregated() {
    let mut s = setting();
    let k = column(&mut s, "k");
    let v = column(&mut s, "v");
    let sum = agg(&mut s, IRAggExpr::Sum(v), "v");
    let count = len_expr(&mut s);
    let std = agg(&mut s, IRAggExpr::Std(k, 1), "k");
    let input = frame(&mut s, &["k", "v"]);
    let keys = vec![alias(k, "key")];
    let aggs = vec![alias(sum, "sum"), alias(count, "n"), alias(std, "dev")];
    let node = add(&mut s, &["key", "sum", "n", "dev"], group_by(input, keys, aggs));
    let (request, lowering) = ask(lower_ir(
        node,
        &s.irs,
        &mut s.exprs,
        &mut s.phys,
        &mut s.cache,
        false,
    ));
    assert!(matches!(request, Request::IsElementwise { node } if node == v));
    let yes = Reply::Elementwise(true);
    assert!(lowering.can_resume(&yes, &s.exprs, &s.phys, &s.cache));
    let (request, lowering) =
        ask(lowering.resume(yes, &mut s.exprs, &mut s.phys, &mut s.cache));
    assert!(matches!(request, Request::IsElementwise { node } if node == k));
    let yes = Reply::Elementwise(true);
    let (request, lowering) =
        ask(lowering.resume(yes, &mut s.exprs, &mut s.phys, &mut s.cache));
    match request {
        Request::LowerExprs { input, exprs } => {
            assert_eq!(names(s.phys.get(input)), vec!["k", "v"]);
            assert_eq!(
                exprs,
                vec![
                    alias(k, "key"),
                    column_lhs(v, "v"),
                    alias(k, "key"),
                    column_lhs(k, "k"),
                ]
            );
        },
        other => panic!("{:?}", other),
    }
    let trans = stand_in(&mut s.phys, &["t"], 3);
    let t0 = column_in(&mut s.exprs, "t0");
    let t1 = column_in(&mut s.exprs, "t1");
    let t2 = column_in(&mut s.exprs, "t2");
    let t3 = column_in(&mut s.exprs, "t3");
    let before = s.exprs.len();
    let lowered = Reply::Lowered {
        input: trans,
        exprs: vec![alias(t0, "0"), alias(t1, "1"), alias(t2, "2"), alias(t3, "3")],
    };
    assert!(lowering.can_resume(&lowered, &s.exprs, &s.phys, &s.cache));
    let key = done(lowering.resume(lowered, &mut s.exprs, &mut s.phys, &mut s.cache)).unwrap();
    match &s.phys.get(key).kind {
        PhysNodeKind::GroupBy { input, key, aggs } => {
            assert_eq!(*input, trans);
            assert_eq!(*key, vec![alias(t0, "0")]);
            assert_eq!(
                *aggs,
                vec![alias(before, "sum"), alias(before + 1, "n"), alias(before + 2, "dev")]
            );
        },
        other => panic!("{:?}", other),
    }
    assert_eq!(s.exprs.len(), before + 3);
    assert_eq!(s.exprs.get(Node(before)).kind, AExprKind::Agg(IRAggExpr::Sum(t1)));
    assert_eq!(s.exprs.get(Node(before + 1)).kind, AExprKind::Len);
    assert_eq!(s.exprs.get(Node(before + 2)).kind, AExprKind::Agg(IRAggExpr::Std(t3, 1)));
    assert_eq!(names(s.phys.get(key)), vec!["key", "sum", "n", "dev"]);
}

#[test]
fn grouping_is_sliced_on_top() {
    let mut s = setting();
    let k = column(&mut s, "k");
    let input = frame(&mut s, &["k"]);
    let ir = IR::GroupBy {
        input,
        keys: vec![alias(k, "k")],
        aggs: vec![],
        apply: false,
        maintain_order: false,
        options: GroupbyOptions { dynamic: false, rolling: false, slice: Some((2, 3)) },
    };
    let node = add(&mut s, &["k"], ir);
    let (_, lowering) = ask(lower_ir(
        node,
        &s.irs,
        &mut s.exprs,
        &mut s.phys,
        &mut s.cache,
        false,
    ));
    let trans = stand_in(&mut s.phys, &["t"], 3);
    let lowered = Reply::Lowered { input: trans, exprs: vec![alias(k, "k")] };
    let key = done(lowering.resume(lowered, &mut s.exprs, &mut s.phys, &mut s.cache)).unwrap();
    match s.phys.get(key).kind {
        PhysNodeKind::StreamingSlice { input, offset: 2, length: 3 } => {
            assert!(matches!(s.phys.get(input).kind, PhysNodeKind::GroupBy { .. }));
        },
        _ => panic!("not a slice"),
    }
}

#[test]
fn failure_of_the_service_ends_a_grouping() {
    let mut s = setting();
    let k = column(&mut s, "k");
    let input = frame(&mut s, &["k"]);
    let node = add(&mut s, &["k"], group_by(input, vec![alias(k, "k")], vec![]));
    let (_, lowering) = ask(lower_ir(
        node,
        &s.irs,
        &mut s.exprs,
        &mut s.phys,
        &mut s.cache,
        false,
    ));
    let error = done(lowering.resume(failure(), &mut s.exprs, &mut s.phys, &mut s.cache));
    assert!(is_failure(error.unwrap_err()));
}

fn join(s: &mut Setting, how: JoinType, validation: JoinValidation) -> usize {
    let left = frame(s, &["l", "x"]);
    let right = frame(s, &["r"]);
    let ir = IR::Join {
        input_left: left,
        input_right: right,
        left_on: vec![alias(0, "on_l")],
        right_on: vec![alias(1, "on_r")],
        args: JoinArgs { how, validation, slice: Some((1, 9)), rest: carried(13) },
    };
    add(s, &["l", "x", "r"], ir)
}

#[test]
fn join_by_equal_keys_carries_columns_along_and_drops_them() {
    let mut s = setting();
    column(&mut s, "l");
    column(&mut s, "r");
    let node = join(&mut s, JoinType::Left, JoinValidation::ManyToMany);
    let (request, lowering) = ask(lower_ir(
        node,
        &s.irs,
        &mut s.exprs,
        &mut s.phys,
        &mut s.cache,
        false,
    ));
    match request {
        Request::LowerExprs { input, exprs } => {
            assert_eq!(names(s.phys.get(input)), vec!["l", "x"]);
            assert_eq!(
                exprs,
                vec![alias(0, "on_l"), column_lhs(2, "l"), column_lhs(3, "x")]
            );
        },
        other => panic!("{:?}", other),
    }
    assert_eq!(s.exprs.len(), 5);
    let left = stand_in(&mut s.phys, &["tl"], 1);
    let lowered = Reply::Lowered {
        input: left,
        exprs: vec![alias(20, "l0"), alias(21, "l1"), alias(22, "l2")],
    };
    assert!(lowering.can_resume(&lowered, &s.exprs, &s.phys, &s.cache));
    let (request, lowering) =
        ask(lowering.resume(lowered, &mut s.exprs, &mut s.phys, &mut s.cache));
    match request {
        Request::LowerExprs { input, exprs } => {
            assert_eq!(names(s.phys.get(input)), vec!["r"]);
            assert_eq!(exprs, vec![alias(1, "on_r"), column_lhs(4, "r")]);
        },
        other => panic!("{:?}", other),
    }
    let right = stand_in(&mut s.phys, &["tr"], 2);
    let lowered =
        Reply::Lowered { input: right, exprs: vec![alias(30, "r0"), alias(31, "r1")] };
    assert!(lowering.can_resume(&lowered, &s.exprs, &s.phys, &s.cache));
    let key = done(lowering.resume(lowered, &mut s.exprs, &mut s.phys, &mut s.cache)).unwrap();
    let joined = match s.phys.get(key).kind {
        PhysNodeKind::StreamingSlice { input, offset: 1, length: 9 } => input,
        _ => panic!("not a slice"),
    };
    match &s.phys.get(joined).kind {
        PhysNodeKind::EquiJoin { input_left, input_right, left_on, right_on, args } => {
            assert_eq!((*input_left, *input_right), (left, right));
            assert_eq!(*left_on, vec![alias(20, "l0")]);
            assert_eq!(*right_on, vec![alias(30, "r0")]);
            assert_eq!(args.how, JoinType::Left);
            assert_eq!(args.rest, carried(13));
        },
        other => panic!("{:?}", other),
    }
    assert_eq!(names(s.phys.get(joined)), vec!["l", "x", "r"]);
}

#[test]
fn failure_of_the_service_ends_a_join_on_either_side() {
    let mut s = setting();
    let node = join(&mut s, JoinType::Inner, JoinValidation::ManyToMany);
    let (_, lowering) = ask(lower_ir(
        node,
        &s.irs,
        &mut s.exprs,
        &mut s.phys,
        &mut s.cache,
        false,
    ));
    let error = done(lowering.resume(failure(), &mut s.exprs, &mut s.phys, &mut s.cache));
    assert!(is_failure(error.unwrap_err()));
    let (_, lowering) = ask(lower_ir(
        node,
        &s.irs,
        &mut s.exprs,
        &mut s.phys,
        &mut s.cache,
        false,
    ));
    let left = stand_in(&mut s.phys, &["tl"], 1);
    let lowered = Reply::Lowered { input: left, exprs: vec![alias(20, "l0")] };
    let (_, lowering) =
        ask(lowering.resume(lowered, &mut s.exprs, &mut s.phys, &mut s.cache));
    let error = done(lowering.resume(failure(), &mut s.exprs, &mut s.phys, &mut s.cache));
    assert!(is_failure(error.unwrap_err()));
}

#[test]
fn other_joins_are_done_in_memory() {
    for (how, validation) in [
        (JoinType::Cross, JoinValidation::ManyToMany),
        (JoinType::Other(carried(5)), JoinValidation::ManyToMany),
        (JoinType::Inner, JoinValidation::OneToOne),
        (JoinType::Full, JoinValidation::ManyToOne),
    ] {
        let mut s = setting();
        let node = join(&mut s, how, validation);
        let key = done(begin(&mut s, node)).unwrap();
        match &s.phys.get(key).kind {
            PhysNodeKind::InMemoryJoin { input_left, input_right, left_on, right_on, args } => {
                assert_eq!(names(s.phys.get(*input_left)), vec!["l", "x"]);
                assert_eq!(names(s.phys.get(*input_right)), vec!["r"]);
                assert_eq!(*left_on, vec![alias(0, "on_l")]);
                assert_eq!(*right_on, vec![alias(1, "on_r")]);
                assert_eq!((args.how, args.validation), (how, validation));
                assert_eq!(args.slice, Some((1, 9)));
            },
            other => panic!("{:?}", other),
        }
        assert_eq!(s.exprs.len(), 0);
        assert_eq!(s.phys.len(), 3);
    }
}

#[test]
fn nodes_above_go_on_after_an_answer() {
    let mut s = setting();
    let a = column(&mut s, "a");
    let input = frame(&mut s, &["a"]);
    let select = add(&mut s, &["x"], IR::Select { input, expr: vec![alias(a, "x")] });
    let cached = add(&mut s, &["x"], IR::Cache { input: select, id: 7 });
    let other = frame(&mut s, &["y"]);
    let concat = IR::HConcat { inputs: vec![other, cached, cached] };
    let concat = add(&mut s, &["y", "x"], concat);
    let node = add(&mut s, &["y", "x"], IR::Sink { input: concat, payload: SinkType::Memory });
    let (_, lowering) = ask(lower_ir(
        node,
        &s.irs,
        &mut s.exprs,
        &mut s.phys,
        &mut s.cache,
        false,
    ));
    assert_eq!(s.phys.len(), 2);
    let made = stand_in(&mut s.phys, &["x"], 5);
    let reply = Reply::Selected(made);
    let key = done(lowering.resume(reply, &mut s.exprs, &mut s.phys, &mut s.cache)).unwrap();
    let zip = match s.phys.get(key).kind {
        PhysNodeKind::InMemorySink { input } => input,
        _ => panic!("not a sink"),
    };
    match &s.phys.get(zip).kind {
        PhysNodeKind::Zip { inputs, .. } => {
            assert_eq!(inputs.len(), 3);
            assert_eq!(names(s.phys.get(inputs[0])), vec!["y"]);
            assert_eq!(inputs[1], made);
            assert_eq!(inputs[2], made);
        },
        other => panic!("{:?}", other),
    }
    assert_eq!(s.cache.get(7), Some(made));
}

#[test]
fn lowering_only_adds() {
    let mut s = setting();
    let a = column(&mut s, "a");
    let kept = stand_in(&mut s.phys, &["k"], 77);
    let input = frame(&mut s, &["a"]);
    let node = add(&mut s, &["a"], IR::Filter { input, predicate: alias(a, "p") });
    let (_, lowering) = ask(lower_ir(
        node,
        &s.irs,
        &mut s.exprs,
        &mut s.phys,
        &mut s.cache,
        false,
    ));
    let trans = stand_in(&mut s.phys, &["a"], 78);
    let lowered = Reply::Lowered { input: trans, exprs: vec![alias(a, "p")] };
    let _ = ask(lowering.resume(lowered, &mut s.exprs, &mut s.phys, &mut s.cache));
    assert!(matches!(s.phys.get(kept).kind, PhysNodeKind::Expression(Carried { id: 77 })));
    assert!(matches!(s.phys.get(trans).kind, PhysNodeKind::Expression(Carried { id: 78 })));
    assert_eq!(s.exprs.get(Node(a)).kind, AExprKind::Column("a".to_string()));
}

#[test]
fn plain_plan_is_done_at_once() {
    let mut s = setting();
    let mut node = frame(&mut s, &["a"]);
    for offset in 0..50 {
        node = add(&mut s, &["a"], IR::Slice { input: node, offset, len: 7 });
    }
    let key = done(begin(&mut s, node)).unwrap();
    assert_eq!(s.phys.len(), 51);
    let mut below = key;
    for expected in (0..50).rev() {
        below = match s.phys.get(below).kind {
            PhysNodeKind::StreamingSlice { input, offset, length: 7 } => {
                assert_eq!(offset, expected);
                input
            },
            _ => panic!("not a slice"),
        };
    }
    assert!(matches!(s.phys.get(below).kind, PhysNodeKind::InMemorySource { .. }));
}

#[test]
fn same_plan_is_lowered_the_same_way() {
    let mut s = setting();
    let input = frame(&mut s, &["a"]);
    let node = add(&mut s, &["a"], IR::Slice { input, offset: 1, len: 2 });
    let higher = add(&mut s, &["a"], IR::Union { inputs: vec![node, input], slice: None });
    let alone = done(begin(&mut s, node)).unwrap();
    let above = done(begin(&mut s, higher)).unwrap();
    let below = match &s.phys.get(above).kind {
        PhysNodeKind::OrderedUnion { inputs } => inputs[0],
        other => panic!("{:?}", other),
    };
    for key in [alone, below] {
        match s.phys.get(key).kind {
            PhysNodeKind::StreamingSlice { input, offset: 1, length: 2 } => {
                assert!(matches!(
                    s.phys.get(input).kind,
                    PhysNodeKind::InMemorySource { df: Frame::Given(Carried { id: 1 }) }
                ));
            },
            _ => panic!("not a slice"),
        }
    }
    assert_eq!(s.phys.len(), 6);
}

#[test]
fn what_is_lowered_first_does_not_depend_on_what_follows() {
    let mut s = setting();
    let first = frame(&mut s, &["a"]);
    let select = add(&mut s, &["x"], IR::Select { input: first, expr: vec![] });
    let node = add(&mut s, &["a"], IR::HConcat { inputs: vec![first, select] });
    for fails in [false, true] {
        let mut phys = PhysNodes::new();
        let mut cache = CacheNodes::new();
        let (request, lowering) =
            ask(lower_ir(node, &s.irs, &mut s.exprs, &mut phys, &mut cache, false));
        assert!(matches!(request, Request::BuildSelect { .. }));
        assert_eq!(phys.len(), 2);
        if fails {
            let error = done(lowering.resume(failure(), &mut s.exprs, &mut phys, &mut cache));
            assert!(is_failure(error.unwrap_err()));
            assert_eq!(phys.len(), 2);
        } else {
            let made = stand_in(&mut phys, &["x"], 5);
            let reply = Reply::Selected(made);
            let key = done(lowering.resume(reply, &mut s.exprs, &mut phys, &mut cache)).unwrap();
            assert!(matches!(
                &phys.get(key).kind,
                PhysNodeKind::Zip { inputs, .. } if inputs[1] == made
            ));
        }
    }
}

#[test]
fn every_question_names_a_node_of_the_plan() {
    let mut s = setting();
    column(&mut s, "l");
    column(&mut s, "r");
    let node = join(&mut s, JoinType::Full, JoinValidation::ManyToMany);
    let (request, lowering) = ask(lower_ir(
        node,
        &s.irs,
        &mut s.exprs,
        &mut s.phys,
        &mut s.cache,
        false,
    ));
    assert!(matches!(request, Request::LowerExprs { input, .. } if s.phys.contains_key(input)));
    let left = stand_in(&mut s.phys, &["tl"], 1);
    let lowered = Reply::Lowered { input: left, exprs: vec![alias(0, "l")] };
    let (request, _) = ask(lowering.resume(lowered, &mut s.exprs, &mut s.phys, &mut s.cache));
    assert!(matches!(request, Request::LowerExprs { input, .. } if s.phys.contains_key(input)));
}

fn inputs(kind: &PhysNodeKind) -> Vec<PhysNodeKey> {
    match kind {
        PhysNodeKind::InMemorySource { .. } => vec![],
        PhysNodeKind::StreamingSlice { input, .. } => vec![*input],
        PhysNodeKind::Filter { input, .. } => vec![*input],
        PhysNodeKind::InMemorySink { input } => vec![*input],
        PhysNodeKind::EquiJoin { input_left, input_right, .. } => {
            vec![*input_left, *input_right]
        },
        PhysNodeKind::Expression(_) => vec![],
        other => panic!("{:?}", other),
    }
}

#[test]
fn no_node_reads_what_is_not_there() {
    let mut s = setting();
    let p = column(&mut s, "p");
    let joined = join(&mut s, JoinType::Right, JoinValidation::ManyToMany);
    let ir = IR::Filter { input: joined, predicate: alias(p, "p") };
    let filtered = add(&mut s, &["l", "x", "r"], ir);
    let ir = IR::Sink { input: filtered, payload: SinkType::Memory };
    let node = add(&mut s, &["l", "x", "r"], ir);
    let mut progress = lower_ir(node, &s.irs, &mut s.exprs, &mut s.phys, &mut s.cache, false);
    let mut questions = 0;
    let key = loop {
        match progress {
            Progress::Done(result) => break result.unwrap(),
            Progress::Ask(request, lowering) => {
                questions += 1;
                let made = stand_in(&mut s.phys, &["l", "x", "r"], questions);
                let reply = match request {
                    Request::LowerExprs { exprs, .. } => Reply::Lowered { input: made, exprs },
                    Request::BuildSelect { .. } => Reply::Selected(made),
                    Request::IsElementwise { .. } => Reply::Elementwise(true),
                };
                assert!(lowering.can_resume(&reply, &s.exprs, &s.phys, &s.cache));
                progress = lowering.resume(reply, &mut s.exprs, &mut s.phys, &mut s.cache);
            },
        }
    };
    assert_eq!(questions, 4);
    let mut stack = vec![key];
    let mut seen = 0;
    while let Some(key) = stack.pop() {
        assert!(s.phys.contains_key(key));
        stack.extend(inputs(&s.phys.get(key).kind));
        seen += 1;
    }
    assert_eq!(seen, 2);
    assert_eq!(s.phys.len(), 10);
}
