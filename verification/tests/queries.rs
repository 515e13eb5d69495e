//! Queries run against a block device in memory, their answers held against
//! those of a plain evaluation.

use std::cell::RefCell;
use std::collections::{HashMap, VecDeque};
use std::rc::Rc;

use database::catalog::db_context::DbContext;
use database::catalog::statistics::ColumnStat;
use database::catalog::table::{ColumnSpec, TableSpec};
use database::data::{Data, DataType};
use database::error::DbError;
use database::executor::execute_query;
use database::io::{Input, MemoryInput, MemoryOutput, Output};
use database::optimizer::optimize_query;
use database::query::{
    ComparisionOperator, ComparisionValue, CrossData, FilterData, Predicate, ProjectData, Query,
    QueryOp, ScanData, SortData, SortSpec,
};
use database::query_support::infer_schema;
use database::row::Row;
use database::storage::block_allocator::ScratchSpace;
use database::storage::disk_client::DiskClient;
use database::storage::scratch_run::RowCollector;

const BLOCK_SIZE: usize = 256;
const ANON_START: u64 = 10_000;

struct Device {
    blocks: HashMap<u64, Vec<u8>>,
    files: HashMap<String, (u64, u64)>,
    replies: VecDeque<u8>,
    command: Vec<u8>,
    put: Option<(u64, u64)>,
    puts: u64,
}

impl Device {
    fn take(&mut self, bytes: &[u8]) {
        self.command.extend_from_slice(bytes);
        loop {
            if let Some((start, count)) = self.put {
                let size = count as usize * BLOCK_SIZE;
                if self.command.len() < size {
                    return;
                }
                let data: Vec<u8> = self.command.drain(..size).collect();
                for i in 0..count as usize {
                    let block = data[i * BLOCK_SIZE..(i + 1) * BLOCK_SIZE].to_vec();
                    self.blocks.insert(start + i as u64, block);
                }
                self.puts += count;
                self.put = None;
                continue;
            }
            let Some(end) = self.command.iter().position(|b| *b == b'\n') else {
                return;
            };
            let line: Vec<u8> = self.command.drain(..=end).collect();
            let text = String::from_utf8(line).unwrap();
            let words: Vec<&str> = text.trim().split(' ').collect();
            if words[0] == "put" {
                self.put = Some((words[2].parse().unwrap(), words[3].parse().unwrap()));
            } else if words[1] == "block-size" {
                self.reply(BLOCK_SIZE as u64);
            } else if words[1] == "anon-start-block" {
                self.reply(ANON_START);
            } else if words[1] == "file" {
                let (start, count) = self.files[words[3]];
                self.reply(if words[2] == "start-block" { start } else { count });
            } else {
                let start: u64 = words[2].parse().unwrap();
                let count: u64 = words[3].parse().unwrap();
                for id in start..start + count {
                    let block = self.blocks.get(&id).cloned().unwrap_or(vec![0; BLOCK_SIZE]);
                    self.replies.extend(block);
                }
            }
        }
    }

    fn reply(&mut self, n: u64) {
        self.replies.extend(format!("{n}\n").into_bytes());
    }
}

struct Reader(Rc<RefCell<Device>>);

struct Writer(Rc<RefCell<Device>>);

impl Input for Reader {
    fn read_line(&mut self) -> Result<String, DbError> {
        let mut device = self.0.borrow_mut();
        let mut line = Vec::new();
        while let Some(b) = device.replies.pop_front() {
            line.push(b);
            if b == b'\n' {
                break;
            }
        }
        String::from_utf8(line).map_err(|_| DbError::Io)
    }

    fn read_exact(&mut self, count: usize) -> Result<Vec<u8>, DbError> {
        let mut device = self.0.borrow_mut();
        if device.replies.len() < count {
            return Err(DbError::Io);
        }
        Ok(device.replies.drain(..count).collect())
    }
}

impl Output for Writer {
    fn write_all(&mut self, bytes: &[u8]) -> Result<(), DbError> {
        self.0.borrow_mut().take(bytes);
        Ok(())
    }

    fn flush(&mut self) -> Result<(), DbError> {
        Ok(())
    }
}

struct Tables {
    specs: Vec<(String, Vec<(String, DataType, bool)>)>,
    rows: Vec<Vec<Vec<Data>>>,
}

impl Tables {
    fn context(&self) -> DbContext {
        let mut specs = Vec::new();
        for (t, (name, columns)) in self.specs.iter().enumerate() {
            let mut column_specs = Vec::new();
            for (c, (column, data_type, ordered)) in columns.iter().enumerate() {
                let mut seen: Vec<&Data> = Vec::new();
                for row in &self.rows[t] {
                    if !seen.contains(&&row[c]) {
                        seen.push(&row[c]);
                    }
                }
                let mut stats = vec![ColumnStat::CardinalityStat(seen.len() as u64)];
                if *ordered {
                    stats.push(ColumnStat::IsPhysicallyOrdered);
                }
                column_specs.push(ColumnSpec {
                    column_name: column.clone(),
                    data_type: *data_type,
                    stats: Some(stats),
                });
            }
            specs.push(TableSpec {
                name: name.clone(),
                file_id: format!("{name}.bin"),
                column_specs,
            });
        }
        DbContext::from(specs).unwrap()
    }

    fn device(&self) -> Device {
        let mut blocks = HashMap::new();
        let mut files = HashMap::new();
        let mut next = 0u64;
        for (t, (name, _)) in self.specs.iter().enumerate() {
            let start = next;
            let mut bytes: Vec<u8> = Vec::new();
            let mut count = 0u16;
            for row in &self.rows[t] {
                let stored = Row::new(row.clone()).to_stored().unwrap();
                if bytes.len() + stored.len() > BLOCK_SIZE - 2 {
                    blocks.insert(next, finished(bytes, count));
                    next += 1;
                    bytes = Vec::new();
                    count = 0;
                }
                bytes.extend(stored);
                count += 1;
            }
            if count > 0 {
                blocks.insert(next, finished(bytes, count));
                next += 1;
            }
            files.insert(format!("{name}.bin"), (start, next - start));
        }
        Device {
            blocks,
            files,
            replies: VecDeque::new(),
            command: Vec::new(),
            put: None,
            puts: 0,
        }
    }

    fn evaluate(&self, op: &QueryOp) -> (Vec<String>, Vec<Vec<Data>>) {
        match op {
            QueryOp::Scan(scan) => {
                let t = self.specs.iter().position(|s| s.0 == scan.table_id).unwrap();
                let names = self.specs[t].1.iter().map(|c| c.0.clone()).collect();
                (names, self.rows[t].clone())
            }
            QueryOp::Filter(filter) => {
                let (names, rows) = self.evaluate(&filter.underlying);
                let kept = rows
                    .into_iter()
                    .filter(|row| filter.predicates.iter().all(|p| meets(&names, row, p)))
                    .collect();
                (names, kept)
            }
            QueryOp::Project(project) => {
                let (names, rows) = self.evaluate(&project.underlying);
                let at: Vec<usize> = project
                    .column_name_map
                    .iter()
                    .map(|(from, _)| names.iter().position(|n| n == from).unwrap())
                    .collect();
                let out = rows
                    .iter()
                    .map(|row| at.iter().map(|i| row[*i].clone()).collect())
                    .collect();
                let to = project.column_name_map.iter().map(|(_, to)| to.clone()).collect();
                (to, out)
            }
            QueryOp::Cross(cross) => {
                let (mut names, lefts) = self.evaluate(&cross.left);
                let (more, rights) = self.evaluate(&cross.right);
                names.extend(more);
                let mut out = Vec::new();
                for l in &lefts {
                    for r in &rights {
                        let mut row = l.clone();
                        row.extend(r.clone());
                        out.push(row);
                    }
                }
                (names, out)
            }
            QueryOp::Sort(sort) => {
                let (names, mut rows) = self.evaluate(&sort.underlying);
                rows.sort_by(|a, b| {
                    for spec in &sort.sort_specs {
                        let i = names.iter().position(|n| *n == spec.column_name).unwrap();
                        let o = key(&a[i]).cmp(&key(&b[i]));
                        let o = if spec.ascending { o } else { o.reverse() };
                        if o != std::cmp::Ordering::Equal {
                            return o;
                        }
                    }
                    std::cmp::Ordering::Equal
                });
                (names, rows)
            }
        }
    }

    fn run(&self, op: &QueryOp, memory_limit: usize, optimize: bool) -> (Vec<Row>, u64) {
        let ctx = self.context();
        let query = Query { root: op.clone() };
        let query = if optimize { optimize_query(&query, &ctx).unwrap() } else { query };
        let device = Rc::new(RefCell::new(self.device()));
        let mut disk = DiskClient::new(Reader(device.clone()), Writer(device.clone()));
        let block_size = disk.get_block_size().unwrap();
        let anon_start = disk.get_anon_start_block().unwrap();
        let mut scratch = ScratchSpace::new(block_size, anon_start);
        let out = execute_query(
            &query,
            &ctx,
            &mut disk,
            &mut scratch,
            memory_limit,
            RowCollector::new(),
        )
        .unwrap();
        let rows = out.rows().iter().map(|r| Row::new(r.values().clone())).collect();
        let puts = device.borrow().puts;
        (rows, puts)
    }

    /// The answer is right up to its order, at several memory limits, as it
    /// stands and rewritten.
    fn check(&self, op: &QueryOp) {
        let (_, rows) = self.evaluate(op);
        let expected = in_order(rows.into_iter().map(Row::new).collect());
        for limit in [0, 40_000, 700_000, 64 << 20] {
            for optimize in [false, true] {
                let (rows, _) = self.run(op, limit, optimize);
                assert_eq!(in_order(rows), expected, "limit {limit}, optimize {optimize}");
            }
        }
    }
}

fn finished(mut bytes: Vec<u8>, count: u16) -> Vec<u8> {
    bytes.resize(BLOCK_SIZE - 2, 0);
    bytes.extend(count.to_le_bytes());
    bytes
}

fn key(value: &Data) -> (i64, String) {
    match value {
        Data::Int32(v) => (*v as i64, String::new()),
        Data::Int64(v) => (*v, String::new()),
        Data::String(s) => (0, s.clone()),
        _ => unreachable!(),
    }
}

fn meets(names: &[String], row: &[Data], p: &Predicate) -> bool {
    let at = |name: &str| row[names.iter().position(|n| n == name).unwrap()].clone();
    let left = key(&at(&p.column_name));
    let right = match &p.value {
        ComparisionValue::Column(c) => key(&at(c)),
        ComparisionValue::I32(v) => (*v as i64, String::new()),
        ComparisionValue::I64(v) => (*v, String::new()),
        ComparisionValue::String(s) => (0, s.clone()),
        _ => unreachable!(),
    };
    match p.operator {
        ComparisionOperator::EQ => left == right,
        ComparisionOperator::NE => left != right,
        ComparisionOperator::GT => left > right,
        ComparisionOperator::GTE => left >= right,
        ComparisionOperator::LT => left < right,
        ComparisionOperator::LTE => left <= right,
    }
}

fn in_order(rows: Vec<Row>) -> Vec<String> {
    let mut out: Vec<String> = rows.iter().map(|r| format!("{r:?}")).collect();
    out.sort();
    out
}

fn tables() -> Tables {
    let mut state = 7u64;
    let mut next = move |n: u64| {
        state = state.wrapping_mul(6364136223846793005).wrapping_add(1442695040888963407);
        (state >> 33) % n
    };
    let mut orders = Vec::new();
    for i in 0..150 {
        orders.push(vec![
            Data::Int32(i),
            Data::Int32(next(40) as i32),
            Data::Int64(next(1000) as i64 - 500),
        ]);
    }
    let mut customers = Vec::new();
    for i in 0..40 {
        customers.push(vec![
            Data::Int32(i),
            Data::String(format!("customer {}", next(12))),
            Data::Int32(next(5) as i32),
        ]);
    }
    let mut nations = Vec::new();
    for i in 0..5 {
        nations.push(vec![Data::Int32(i), Data::String(format!("nation {i}"))]);
    }
    let names = |list: &[(&str, DataType, bool)]| {
        list.iter().map(|(n, t, o)| (n.to_string(), *t, *o)).collect()
    };
    Tables {
        specs: vec![
            (
                "orders".to_string(),
                names(&[
                    ("o_id", DataType::Int32, true),
                    ("o_customer", DataType::Int32, false),
                    ("o_amount", DataType::Int64, false),
                ]),
            ),
            (
                "customers".to_string(),
                names(&[
                    ("c_id", DataType::Int32, true),
                    ("c_name", DataType::String, false),
                    ("c_nation", DataType::Int32, false),
                ]),
            ),
            (
                "nations".to_string(),
                names(&[("n_id", DataType::Int32, true), ("n_name", DataType::String, false)]),
            ),
        ],
        rows: vec![orders, customers, nations],
    }
}

fn scan(table: &str) -> QueryOp {
    QueryOp::Scan(ScanData { table_id: table.to_string() })
}

fn filter(predicates: Vec<Predicate>, underlying: QueryOp) -> QueryOp {
    QueryOp::Filter(FilterData { predicates, underlying: Box::new(underlying) })
}

fn project(map: &[(&str, &str)], underlying: QueryOp) -> QueryOp {
    QueryOp::Project(ProjectData {
        column_name_map: map.iter().map(|(a, b)| (a.to_string(), b.to_string())).collect(),
        underlying: Box::new(underlying),
    })
}

fn cross(left: QueryOp, right: QueryOp) -> QueryOp {
    QueryOp::Cross(CrossData { left: Box::new(left), right: Box::new(right) })
}

fn sort(specs: &[(&str, bool)], underlying: QueryOp) -> QueryOp {
    QueryOp::Sort(SortData {
        sort_specs: specs
            .iter()
            .map(|(c, a)| SortSpec { column_name: c.to_string(), ascending: *a })
            .collect(),
        underlying: Box::new(underlying),
    })
}

fn by(column: &str, operator: ComparisionOperator, value: ComparisionValue) -> Predicate {
    Predicate { column_name: column.to_string(), operator, value }
}

fn same(a: &str, b: &str) -> Predicate {
    by(a, ComparisionOperator::EQ, ComparisionValue::Column(b.to_string()))
}

fn joined() -> QueryOp {
    filter(
        vec![
            same("o_customer", "c_id"),
            same("c_nation", "n_id"),
            by("o_amount", ComparisionOperator::GT, ComparisionValue::I64(-100)),
            by("n_id", ComparisionOperator::LTE, ComparisionValue::I32(3)),
        ],
        cross(cross(scan("orders"), scan("customers")), scan("nations")),
    )
}

#[test]
fn a_scan_hands_out_the_rows_of_the_table() {
    let tables = tables();
    let (rows, puts) = tables.run(&scan("orders"), 64 << 20, false);
    let expected: Vec<Row> = tables.rows[0].iter().cloned().map(Row::new).collect();
    assert_eq!(rows, expected);
    assert_eq!(puts, 0);
}

#[test]
fn a_table_can_be_named_by_its_file() {
    let tables = tables();
    let (rows, _) = tables.run(&scan("nations.bin"), 64 << 20, false);
    assert_eq!(rows.len(), 5);
}

#[test]
fn filters_and_projections_keep_the_order_of_the_table() {
    let tables = tables();
    let op = project(
        &[("o_amount", "amount"), ("o_id", "id")],
        filter(
            vec![by("o_customer", ComparisionOperator::LT, ComparisionValue::I32(20))],
            scan("orders"),
        ),
    );
    let (_, expected) = tables.evaluate(&op);
    let expected: Vec<Row> = expected.into_iter().map(Row::new).collect();
    for optimize in [false, true] {
        assert_eq!(tables.run(&op, 0, optimize).0, expected);
    }
}

#[test]
fn a_cross_product_pairs_all_rows() {
    let tables = tables();
    let op = project(
        &[("n_name", "nation"), ("c_name", "customer"), ("c_id", "id")],
        cross(scan("customers"), scan("nations")),
    );
    tables.check(&op);
    assert_eq!(tables.run(&op, 0, true).0.len(), 200);
}

#[test]
fn joins_pair_the_rows_that_agree() {
    let op = project(
        &[("n_name", "nation"), ("o_id", "order"), ("c_name", "customer")],
        joined(),
    );
    tables().check(&op);
}

#[test]
fn joins_on_an_inequality_pair_the_rows_that_meet_it() {
    let op = project(
        &[("o_id", "order"), ("c_id", "customer")],
        filter(
            vec![by("o_amount", ComparisionOperator::LT, ComparisionValue::Column("c_id".to_string()))],
            cross(scan("orders"), scan("customers")),
        ),
    );
    tables().check(&op);
}

#[test]
fn joins_of_tables_in_order_of_their_keys() {
    let op = project(
        &[("o_amount", "amount"), ("c_name", "customer")],
        filter(vec![same("o_id", "c_id")], cross(scan("orders"), scan("customers"))),
    );
    tables().check(&op);
}

#[test]
fn sorted_rows_come_in_order() {
    let tables = tables();
    let op = sort(
        &[("c_name", true), ("o_amount", false), ("o_id", true)],
        project(
            &[("c_name", "c_name"), ("o_amount", "o_amount"), ("o_id", "o_id")],
            joined(),
        ),
    );
    let (_, expected) = tables.evaluate(&op);
    let expected: Vec<Row> = expected.into_iter().map(Row::new).collect();
    for limit in [0, 300_000, 64 << 20] {
        for optimize in [false, true] {
            assert_eq!(tables.run(&op, limit, optimize).0, expected);
        }
    }
}

#[test]
fn a_projection_of_sorted_rows_keeps_their_order() {
    let tables = tables();
    let op = project(
        &[("o_id", "id")],
        filter(
            vec![by("o_customer", ComparisionOperator::GTE, ComparisionValue::I32(10))],
            sort(&[("o_amount", true), ("o_id", false)], scan("orders")),
        ),
    );
    let (_, expected) = tables.evaluate(&op);
    let expected: Vec<Row> = expected.into_iter().map(Row::new).collect();
    for limit in [0, 64 << 20] {
        for optimize in [false, true] {
            assert_eq!(tables.run(&op, limit, optimize).0, expected);
        }
    }
}

#[test]
fn a_sort_by_a_column_in_order_on_the_device() {
    let tables = tables();
    let op = sort(&[("o_id", true), ("o_amount", true)], scan("orders"));
    let (_, expected) = tables.evaluate(&op);
    let expected: Vec<Row> = expected.into_iter().map(Row::new).collect();
    assert_eq!(tables.run(&op, 0, false).0, expected);
    assert_eq!(tables.run(&op, 64 << 20, true).0, expected);
}

#[test]
fn little_memory_makes_a_sort_write_to_the_scratch_area() {
    let mut tables = tables();
    let names: Vec<Vec<Data>> = (0..6000)
        .map(|i| {
            vec![Data::Int32(i), Data::String(format!("name {:06} of many more", (i * 7919) % 6007))]
        })
        .collect();
    tables.specs.push((
        "names".to_string(),
        vec![
            ("k".to_string(), DataType::Int32, false),
            ("name".to_string(), DataType::String, false),
        ],
    ));
    tables.rows.push(names);
    let op = sort(&[("name", true)], scan("names"));
    let (_, expected) = tables.evaluate(&op);
    let expected: Vec<Row> = expected.into_iter().map(Row::new).collect();
    let ctx = DbContext::from(vec![TableSpec {
        name: "names".to_string(),
        file_id: "names.bin".to_string(),
        column_specs: vec![
            ColumnSpec { column_name: "k".to_string(), data_type: DataType::Int32, stats: None },
            ColumnSpec { column_name: "name".to_string(), data_type: DataType::String, stats: None },
        ],
    }])
    .unwrap();
    for (limit, writes) in [(400_000, true), (256 << 20, false)] {
        let device = Rc::new(RefCell::new(tables.device()));
        let mut disk = DiskClient::new(Reader(device.clone()), Writer(device.clone()));
        let block_size = disk.get_block_size().unwrap();
        let anon_start = disk.get_anon_start_block().unwrap();
        let mut scratch = ScratchSpace::new(block_size, anon_start);
        let query = Query { root: op.clone() };
        let out = execute_query(&query, &ctx, &mut disk, &mut scratch, limit, RowCollector::new())
            .unwrap();
        assert_eq!(*out.rows(), expected);
        assert_eq!(device.borrow().puts > 0, writes, "limit {limit}");
    }
}

#[test]
fn unknown_tables_and_columns_are_errors() {
    let tables = tables();
    let ctx = tables.context();
    let run = |op: QueryOp| {
        let device = Rc::new(RefCell::new(tables.device()));
        let mut disk = DiskClient::new(Reader(device.clone()), Writer(device));
        let mut scratch = ScratchSpace::new(BLOCK_SIZE as u64, ANON_START);
        let query = Query { root: op };
        execute_query(&query, &ctx, &mut disk, &mut scratch, 0, RowCollector::new()).map(|_| ())
    };
    assert_eq!(run(scan("nothing")), Err(DbError::UnknownTable));
    assert_eq!(run(project(&[("nothing", "x")], scan("nations"))), Err(DbError::UnknownColumn));
    assert_eq!(
        run(filter(vec![same("n_id", "nothing")], scan("nations"))),
        Err(DbError::UnknownColumn)
    );
    assert_eq!(run(sort(&[("nothing", true)], scan("nations"))), Err(DbError::UnknownColumn));
    assert_eq!(
        run(filter(
            vec![by("n_name", ComparisionOperator::EQ, ComparisionValue::I32(1))],
            scan("nations")
        )),
        Err(DbError::Incomparable)
    );
}

#[test]
fn a_device_that_falls_silent_is_an_error() {
    let tables = tables();
    let ctx = tables.context();
    let device = Rc::new(RefCell::new(tables.device()));
    let silent = Rc::new(RefCell::new(tables.device()));
    let mut disk = DiskClient::new(Reader(silent), Writer(device));
    let mut scratch = ScratchSpace::new(BLOCK_SIZE as u64, ANON_START);
    let query = Query { root: scan("nations") };
    let result =
        execute_query(&query, &ctx, &mut disk, &mut scratch, 0, RowCollector::new()).map(|_| ());
    assert_eq!(result, Err(DbError::MalformedNumber));
}

#[test]
fn a_rewritten_join_has_the_same_rows_by_the_names_of_their_columns() {
    let tables = tables();
    let ctx = tables.context();
    for op in [joined(), cross(scan("customers"), scan("nations"))] {
        let (names, rows) = tables.evaluate(&op);
        let rewritten = optimize_query(&Query { root: op.clone() }, &ctx).unwrap();
        let schema = infer_schema(&rewritten.root, &ctx).unwrap();
        assert_eq!(schema.len(), names.len());
        let at: Vec<usize> = names.iter().map(|n| schema.index_of(n).unwrap()).collect();
        let (found, _) = tables.run(&op, 40_000, true);
        let turned = found.into_iter().map(|r| r.into_project(&at).unwrap()).collect();
        assert_eq!(in_order(turned), in_order(rows.into_iter().map(Row::new).collect()));
    }
}

#[test]
fn rewriting_keeps_the_columns_of_sorted_projections() {
    let tables = tables();
    let ctx = tables.context();
    let op = sort(
        &[("nation", true), ("order", true), ("nation", false)],
        project(&[("n_name", "nation"), ("o_id", "order"), ("c_id", "customer")], joined()),
    );
    let rewritten = optimize_query(&Query { root: op.clone() }, &ctx).unwrap();
    let schema = infer_schema(&rewritten.root, &ctx).unwrap();
    let names: Vec<&str> = schema.columns().iter().map(|c| c.name.as_str()).collect();
    assert_eq!(names, vec!["nation", "order", "customer"]);
    let (_, rows) = tables.evaluate(&op);
    let expected: Vec<Row> = rows.into_iter().map(Row::new).collect();
    for limit in [0, 64 << 20] {
        assert_eq!(tables.run(&op, limit, true).0, expected);
    }
}

#[test]
fn a_sort_by_nothing_leaves_the_rows() {
    let tables = tables();
    let op = sort(&[], scan("nations"));
    let (_, rows) = tables.evaluate(&op);
    let expected: Vec<Row> = rows.into_iter().map(Row::new).collect();
    assert_eq!(tables.run(&op, 64 << 20, true).0, expected);
}

#[test]
fn blocks_of_the_scratch_area_are_given_back() {
    let mut tables = tables();
    for (table, number, text) in [("names", "k", "name"), ("aliases", "a_k", "alias")] {
        tables.specs.push((
            table.to_string(),
            vec![
                (number.to_string(), DataType::Int32, false),
                (text.to_string(), DataType::String, false),
            ],
        ));
        tables.rows.push(
            (0..9000)
                .map(|i| {
                    vec![
                        Data::Int32((i * 4001) % 9001),
                        Data::String(format!("{text} {i:06} of many more, and a long one")),
                    ]
                })
                .collect(),
        );
    }
    let ctx = tables.context();
    let ops = [
        (sort(&[("name", false)], scan("names")), 9000),
        (cross(scan("nations"), scan("names")), 45000),
        (filter(vec![same("k", "a_k")], cross(scan("names"), scan("aliases"))), 9000),
    ];
    for (op, count) in ops {
        let device = Rc::new(RefCell::new(tables.device()));
        let mut disk = DiskClient::new(Reader(device.clone()), Writer(device.clone()));
        let block_size = disk.get_block_size().unwrap();
        let anon_start = disk.get_anon_start_block().unwrap();
        let mut scratch = ScratchSpace::new(block_size, anon_start);
        let query = Query { root: op };
        let out = execute_query(&query, &ctx, &mut disk, &mut scratch, 0, RowCollector::new())
            .unwrap();
        assert_eq!(out.rows().len(), count);
        assert!(device.borrow().puts > 0);
        // All that was handed out is there again in one piece.
        let all = scratch.reserve_contiguous_blocks(1 << 20);
        assert_eq!(all[0], anon_start);
        assert!(all.len() < 1 << 20);
        assert_eq!(scratch.reserve_contiguous_blocks(1), vec![all[all.len() - 1] + 1]);
    }
}

#[test]
fn a_refused_query_asks_nothing_of_the_device() {
    let ctx = tables().context();
    let sorted = sort(&[("o_id", true)], scan("orders"));
    let refused = [
        (project(&[("x", "y")], sort(&[("z", true)], scan("nothing"))), DbError::UnknownTable),
        (project(&[("nothing", "x")], sorted.clone()), DbError::UnknownColumn),
        (filter(vec![same("o_id", "nothing")], sorted), DbError::UnknownColumn),
        (
            sort(&[("o_id", true)], filter(vec![same("nothing", "o_id")], scan("orders"))),
            DbError::UnknownColumn,
        ),
    ];
    for (op, error) in refused {
        let mut disk = DiskClient::new(MemoryInput::new(vec![]), MemoryOutput::new());
        let mut scratch = ScratchSpace::new(BLOCK_SIZE as u64, ANON_START);
        let query = Query { root: op };
        let result = execute_query(&query, &ctx, &mut disk, &mut scratch, 0, RowCollector::new());
        assert_eq!(result.map(|_| ()), Err(error));
        let (_, written) = disk.into_parts();
        assert_eq!(*written.bytes(), Vec::<u8>::new());
    }
}

#[test]
fn a_query_does_not_mind_tables_that_it_does_not_read() {
    let tables = tables();
    let ctx = tables.context();
    let run = |op: QueryOp| {
        let mut spoiled = tables.device();
        let (start, count) = spoiled.files["orders.bin"];
        for id in start..start + count {
            spoiled.blocks.insert(id, vec![0xff; BLOCK_SIZE]);
        }
        let device = Rc::new(RefCell::new(spoiled));
        let mut disk = DiskClient::new(Reader(device.clone()), Writer(device));
        let mut scratch = ScratchSpace::new(BLOCK_SIZE as u64, ANON_START);
        let query = optimize_query(&Query { root: op }, &ctx).unwrap();
        execute_query(&query, &ctx, &mut disk, &mut scratch, 0, RowCollector::new())
            .map(|out| out.rows().len())
    };
    assert_eq!(run(sort(&[("n_name", true)], scan("nations"))), Ok(5));
    assert!(run(scan("orders")).is_err());
}

#[test]
fn only_columns_that_are_compared_need_an_order() {
    let number = |i: i32, n: f64| vec![Data::Int32(i), Data::Float64(n.to_bits())];
    let columns = |a: &str, b: &str| {
        vec![
            (a.to_string(), DataType::Int32, false),
            (b.to_string(), DataType::Float64, false),
        ]
    };
    let tables = Tables {
        specs: vec![
            ("left".to_string(), columns("a", "b")),
            ("right".to_string(), columns("c", "d")),
        ],
        rows: vec![
            vec![number(1, f64::NAN), number(2, 0.5)],
            vec![number(2, 0.5), number(3, 1.5)],
        ],
    };
    let ctx = tables.context();
    let run = |op: QueryOp| {
        let device = Rc::new(RefCell::new(tables.device()));
        let mut disk = DiskClient::new(Reader(device.clone()), Writer(device));
        let mut scratch = ScratchSpace::new(BLOCK_SIZE as u64, ANON_START);
        let query = Query { root: op };
        execute_query(&query, &ctx, &mut disk, &mut scratch, 0, RowCollector::new())
            .map(|out| out.rows().len())
    };
    let pairs = || cross(scan("left"), scan("right"));
    assert_eq!(run(filter(vec![same("d", "c")], scan("right"))), Ok(0));
    assert_eq!(run(filter(vec![same("a", "a")], scan("left"))), Ok(2));
    assert_eq!(run(filter(vec![same("a", "b")], scan("left"))), Err(DbError::Incomparable));
    assert_eq!(run(filter(vec![same("a", "c")], pairs())), Ok(1));
    assert_eq!(run(sort(&[("a", false)], filter(vec![same("a", "d")], pairs()))), Ok(0));
}

#[test]
fn only_values_that_are_needed_are_read() {
    let tables = tables();
    let ctx = tables.context();
    let (start, _) = tables.device().files["nations.bin"];
    let run = |op: QueryOp| {
        let mut spoiled = tables.device();
        let block = spoiled.blocks.get_mut(&start).unwrap();
        let at = block.windows(1).position(|w| w[0].is_ascii_alphabetic()).unwrap();
        block[at] = 0xff;
        let device = Rc::new(RefCell::new(spoiled));
        let mut disk = DiskClient::new(Reader(device.clone()), Writer(device));
        let mut scratch = ScratchSpace::new(BLOCK_SIZE as u64, ANON_START);
        let query = Query { root: op };
        execute_query(&query, &ctx, &mut disk, &mut scratch, 0, RowCollector::new())
            .map(|out| out.rows().len())
    };
    assert_eq!(run(project(&[("n_id", "id")], scan("nations"))), Ok(5));
    assert_eq!(run(scan("nations")), Err(DbError::InvalidUtf8));
    let sorted = sort(&[("n_id", false)], scan("nations"));
    assert_eq!(run(project(&[("n_id", "id")], sorted.clone())), Ok(5));
    assert_eq!(run(sorted), Err(DbError::InvalidUtf8));
    assert_eq!(run(cross(scan("customers"), scan("nations"))), Err(DbError::InvalidUtf8));
    assert_eq!(
        run(project(&[("n_id", "id")], filter(vec![same("n_name", "n_name")], scan("nations")))),
        Err(DbError::InvalidUtf8)
    );
}

#[test]
fn sides_of_joins_that_hold_blocks_give_them_back() {
    let tables = tables();
    let ctx = tables.context();
    let lines = sort(&[("o_id", true)], scan("orders"));
    let op = filter(vec![same("o_customer", "c_id")], cross(scan("customers"), lines));
    let device = Rc::new(RefCell::new(tables.device()));
    let mut disk = DiskClient::new(Reader(device.clone()), Writer(device));
    let mut scratch = ScratchSpace::new(BLOCK_SIZE as u64, ANON_START);
    let query = Query { root: op };
    let limit = 64 << 20;
    assert!(execute_query(&query, &ctx, &mut disk, &mut scratch, limit, RowCollector::new()).is_ok());
    let all = scratch.reserve_contiguous_blocks(1 << 20);
    assert_eq!(all[0], ANON_START);
}
