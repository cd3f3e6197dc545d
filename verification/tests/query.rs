//! Statements over tables: parsing, binding, planning and running.
use blitz::engine::execute::{check_run, execute, scan_all, scan_group};
use blitz::engine::finish::{header, render, top_n};
use blitz::engine::join::partition_rows;
use blitz::engine::scan::{check_scan, intersect_sorted};
use blitz::engine::values::{Acc, Cell, Val};
use blitz::format::meta::{CmpOp, ColumnData, DataType, Literal};
use blitz::format::reader::Reader;
use blitz::iceberg::table::{DataFile, Field, TableMeta};
use blitz::iceberg::warehouse::write_data_file;
use blitz::plan::ast::{AggFn, SelectItem};
use blitz::plan::bind::bind;
use blitz::plan::grammar::{parse, parse_checked};
use blitz::plan::optimize::{
    bounds_readable, explain, plan, prune_scan, selectivity, Estimate, Figures, Selectivity,
};
use blitz::plan::physical::{
    BoundPlan, BoundPred, Catalog, CatalogTable, JoinStrategy, OutExpr, PhysicalPlan,
};
use blitz::plan::prepare::prepare;
use std::collections::HashMap;

type Disk = HashMap<String, Vec<u8>>;

fn file(
    disk: &mut Disk,
    path: &str,
    names: [&str; 2],
    ids: Vec<i64>,
    second: ColumnData,
) -> DataFile {
    let dt = match &second {
        ColumnData::Int64(_) => DataType::Int64,
        ColumnData::Utf8(_) => DataType::Utf8,
    };
    let schema = vec![
        (names[0].to_string(), DataType::Int64),
        (names[1].to_string(), dt),
    ];
    let cols = vec![ColumnData::Int64(ids), second];
    let (bytes, f) = write_data_file(path, schema, &vec![1, 2], &cols, 3);
    disk.insert(path.to_string(), bytes);
    f
}

fn table(name: &str, names: [&str; 2], second: DataType, files: Vec<DataFile>) -> CatalogTable {
    CatalogTable {
        name: name.to_string(),
        meta: TableMeta {
            uuid: "u".to_string(),
            location: "/w".to_string(),
            fields: vec![
                Field { id: 1, name: names[0].to_string(), dtype: DataType::Int64 },
                Field { id: 2, name: names[1].to_string(), dtype: second },
            ],
            current_snapshot: None,
            snapshots: vec![],
            last_sequence_number: 0,
        },
        files,
    }
}

/// Orders (user, amount) in two files, and users (id, name) in one.
fn world() -> (Catalog, Disk) {
    let mut disk = Disk::new();
    let o1 = file(
        &mut disk,
        "o1",
        ["user", "amount"],
        vec![1, 2, 1, 3, 9],
        ColumnData::Int64(vec![10, 20, 30, 40, 50]),
    );
    let o2 = file(
        &mut disk,
        "o2",
        ["user", "amount"],
        vec![2, 2],
        ColumnData::Int64(vec![600, 700]),
    );
    let u = file(
        &mut disk,
        "u1",
        ["id", "name"],
        vec![1, 2, 3],
        ColumnData::Utf8(vec!["ann".into(), "bob".into(), "cy".into()]),
    );
    let catalog = Catalog {
        tables: vec![
            table("orders", ["user", "amount"], DataType::Int64, vec![o1, o2]),
            table("users", ["id", "name"], DataType::Utf8, vec![u]),
        ],
    };
    (catalog, disk)
}

fn bound(catalog: &Catalog, sql: &str) -> Result<BoundPlan, String> {
    bind(&parse(sql)?, catalog)
}

fn estimates(b: &BoundPlan, bytes: f64) -> Vec<Estimate> {
    b.scans
        .iter()
        .map(|s| {
            let rows: i64 = s.files.iter().map(|f| f.record_count).sum();
            Estimate {
                rows: (rows as f64).to_bits(),
                bytes: bytes.to_bits(),
            }
        })
        .collect()
}

fn planned(catalog: &Catalog, sql: &str, bytes: f64) -> PhysicalPlan {
    let b = prepare(&parse(sql).unwrap(), catalog).unwrap().unwrap();
    let est = estimates(&b, bytes);
    plan(b, &est)
}

fn run(p: &PhysicalPlan, disk: &Disk) -> Vec<Vec<String>> {
    let tables: Vec<Vec<Vec<Cell>>> = p
        .scans
        .iter()
        .map(|s| {
            let mut readers: Vec<Reader> = s
                .files
                .iter()
                .map(|f| Reader::open(disk[&f.path].clone()).unwrap())
                .collect();
            for r in &readers {
                for g in &r.meta.rowgroups {
                    assert!(check_scan(g, s));
                }
            }
            scan_all(&mut readers, s).unwrap()
        })
        .collect();
    assert!(check_run(p, &tables));
    let r = execute(p, &tables);
    let ranks = vec![0; r.rows.len()];
    let rows = top_n(r.rows, p.order_by, p.limit, &ranks);
    rows.iter()
        .map(|row| row.iter().map(|v| v.text("avg")).collect())
        .collect()
}

#[test]
fn statements_parse() {
    let a = parse("select o.user, SUM(amount), count(*) from orders o where amount >= 5 and name = 'x y' group by o.user order by 2 desc limit 7").unwrap();
    assert_eq!(a.table, "orders");
    assert_eq!(a.alias, "o");
    assert_eq!(a.select.len(), 3);
    match &a.select[1] {
        SelectItem::Agg(f, q, c) => {
            assert_eq!(*f, AggFn::Sum);
            assert_eq!((q.as_str(), c.as_str()), ("", "amount"));
        }
        SelectItem::Col(_, _) => panic!("an aggregate"),
    }
    assert_eq!(a.preds.len(), 2);
    assert_eq!(a.preds[0].op, CmpOp::Ge);
    match &a.preds[1].lit {
        Literal::Str(s) => assert_eq!(s, "x y"),
        Literal::Int(_) => panic!("a text"),
    }
    assert_eq!(a.group_by, vec![("o".to_string(), "user".to_string())]);
    assert_eq!(a.order_by, Some((1, true)));
    assert_eq!(a.limit, Some(7));
}

#[test]
fn bad_statements_do_not() {
    assert!(parse("delete from t").is_err());
    assert!(parse("select a").is_err());
    assert!(parse("select a from t where a ! 3").is_err());
    assert!(parse("select a from t limit x").is_err());
    assert!(matches!(
        parse_checked("select a from t limit 99999999999999999999"),
        None | Some(Err(_))
    ));
}

#[test]
fn errors_show_what_was_met() {
    let why = |sql: &str| parse(sql).err().unwrap();
    assert_eq!(
        why("select ( from t"),
        "expected identifier, got Some(Sym('('))"
    );
    assert_eq!(
        why("select 'it\"s' from t"),
        "expected identifier, got Some(Str(\"it\\\"s\"))"
    );
    assert_eq!(
        why("select a from t where a >= b"),
        "expected literal, got Some(Ident(\"b\"))"
    );
    assert_eq!(why("select a"), "expected FROM");
}

#[test]
fn names_are_bound() {
    let (c, _) = world();
    let b = bound(&c, "SELECT u.name, SUM(o.amount) FROM orders o JOIN users u ON o.user = u.id GROUP BY u.name").unwrap();
    assert_eq!(b.scans.len(), 2);
    assert_eq!(
        b.output,
        vec![OutExpr::Col(1, 1), OutExpr::Agg(AggFn::Sum, 0, 1)]
    );
    assert_eq!(b.group_by, vec![(1, 1)]);
    assert!(b.two_phase_agg);
}

#[test]
fn names_that_do_not_bind() {
    let (c, _) = world();
    let why = |sql: &str| bound(&c, sql).err().unwrap();
    assert!(why("SELECT a FROM nowhere").contains("nowhere"));
    assert_eq!(why("SELECT zz FROM orders"), "column zz not found");
    assert_eq!(why("SELECT x.user FROM orders"), "unknown table alias x");
    assert_eq!(
        why("SELECT orders.zz FROM orders"),
        "column zz not in orders"
    );
    assert_eq!(
        why("SELECT user FROM orders a JOIN orders b ON a.user = b.user"),
        "column user is ambiguous; qualify it"
    );
    assert_eq!(
        why("SELECT amount FROM orders JOIN users u ON amount = u.name"),
        "join keys must be Int64"
    );
    assert_eq!(
        why("SELECT SUM(name) FROM users"),
        "aggregates require Int64 columns"
    );
}

#[test]
fn files_out_of_bounds_are_dropped() {
    let (c, _) = world();
    let mut b = bound(&c, "SELECT user FROM orders WHERE amount > 100").unwrap();
    assert_eq!(b.scans[0].files.len(), 2);
    prune_scan(&mut b.scans[0]);
    assert_eq!(b.scans[0].files.len(), 1);
    assert_eq!(b.scans[0].files[0].path, "o2");
    assert_eq!(b.scans[0].files_pruned, 1);
}

#[test]
fn prepared_statements_are_bound_and_pruned() {
    let (mut c, _) = world();
    let sql = "SELECT user FROM orders WHERE amount > 100";
    let b = prepare(&parse(sql).unwrap(), &c).unwrap().unwrap();
    assert_eq!(b.scans.len(), 1);
    assert_eq!(b.scans[0].files.len(), 1);
    assert_eq!(b.scans[0].files[0].path, "o2");
    assert_eq!(b.scans[0].files_pruned, 1);
    let e = prepare(&parse("SELECT nope FROM orders").unwrap(), &c).unwrap();
    assert_eq!(e.err(), bound(&c, "SELECT nope FROM orders").err());
    for f in c.tables[0].files.iter_mut() {
        for b in f.bounds.iter_mut() {
            b.1.truncate(3);
        }
    }
    assert!(!bounds_readable(&bound(&c, sql).unwrap().scans[0]));
    assert!(prepare(&parse(sql).unwrap(), &c).is_none());
}

#[test]
fn any_white_space_parts_words() {
    let plain = parse("SELECT user FROM orders").unwrap();
    for c in ['\u{85}', '\u{a0}', '\u{1680}', '\u{2000}', '\u{200a}', '\u{2028}', '\u{2029}',
        '\u{202f}', '\u{205f}', '\u{3000}', '\t', '\u{b}']
    {
        let a = parse(&format!("SELECT{c}user{c}FROM orders{c}")).unwrap();
        assert_eq!(format!("{a:?}"), format!("{plain:?}"));
    }
    assert!(parse("SELECT\u{200b}user FROM orders").is_err());
}

#[test]
fn shares_come_from_bounds() {
    let (c, _) = world();
    let p = |op: CmpOp, n: i64| BoundPred {
        col_idx: 1,
        field_id: 2,
        op,
        lit: Literal::Int(n),
    };
    let files = &c.tables[0].files;
    assert_eq!(selectivity(files, &p(CmpOp::Gt, 600)), Selectivity::Part(100, 690));
    assert_eq!(selectivity(files, &p(CmpOp::Lt, 20)), Selectivity::Part(10, 690));
    assert_eq!(selectivity(files, &p(CmpOp::Eq, 20)), Selectivity::OneOf(690));
    assert_eq!(selectivity(&vec![], &p(CmpOp::Gt, 1)), Selectivity::All);
    let t = BoundPred { lit: Literal::Str("x".into()), ..p(CmpOp::Eq, 0) };
    assert_eq!(selectivity(files, &t), Selectivity::Guess);
}

const JOINED: &str =
    "SELECT u.name, SUM(o.amount), COUNT(*) FROM orders o JOIN users u ON o.user = u.id GROUP BY u.name ORDER BY 2 DESC";

#[test]
fn the_smaller_side_is_built() {
    let (c, _) = world();
    let p = planned(&c, JOINED, 1000.0);
    let j = p.join.as_ref().unwrap();
    assert_eq!((j.build, j.probe), (1, 0));
    assert_eq!(j.strategy, JoinStrategy::Broadcast);
    let p = planned(&c, JOINED, 5_000_000.0);
    assert_eq!(
        p.join.as_ref().unwrap().strategy,
        JoinStrategy::Shuffle { partitions: 16 }
    );
}

#[test]
fn plans_are_explained() {
    let (c, _) = world();
    let p = planned(&c, "SELECT SUM(amount) FROM orders WHERE amount > 100 ORDER BY 1 LIMIT 3", 1.0);
    let f = Figures {
        est: "2".to_string(),
        total: "7".to_string(),
        percent: "28.6".to_string(),
    };
    assert_eq!(
        explain(&p, &vec![f]),
        "TopN(limit=3 by output#1)\n  FinalAggregate(merge partials)\n    Exchange(partials -> coordinator)\n      PartialAggregate(per node, per morsel)\n        IcebergScan orders cols[amount] pred[amount>100] | 1 files (1 pruned by manifest bounds), est 2/7 rows (28.6% sel), late-materialized\n"
    );
}

#[test]
fn strategies_agree() {
    let (c, disk) = world();
    let want = vec![
        vec!["bob".to_string(), "1320".to_string(), "3".to_string()],
        vec!["ann".to_string(), "40".to_string(), "2".to_string()],
        vec!["cy".to_string(), "40".to_string(), "1".to_string()],
    ];
    let mut a = run(&planned(&c, JOINED, 1000.0), &disk);
    let mut b = run(&planned(&c, JOINED, 5_000_000.0), &disk);
    assert_eq!(a[0], want[0]);
    a.sort();
    b.sort();
    let mut w = want;
    w.sort();
    assert_eq!(a, w);
    assert_eq!(b, w);
}

#[test]
fn rows_are_filtered_and_cut() {
    let (c, disk) = world();
    let p = planned(&c, "SELECT user, amount FROM orders WHERE amount >= 20 ORDER BY 2 LIMIT 3", 1.0);
    assert_eq!(
        run(&p, &disk),
        vec![vec!["2", "20"], vec!["1", "30"], vec!["3", "40"]]
    );
    assert_eq!(header(&p.scans, &p.output), vec!["user", "amount"]);
    let p = planned(&c, "SELECT MIN(amount), MAX(amount), AVG(amount) FROM orders", 1.0);
    assert_eq!(run(&p, &disk), vec![vec!["10", "700", "avg"]]);
    let p = planned(&c, "SELECT name FROM users WHERE name = 'bob'", 1.0);
    assert_eq!(run(&p, &disk), vec![vec!["bob"]]);
    assert_eq!(
        header(&p.scans, &vec![OutExpr::Agg(AggFn::Count, 0, usize::MAX)]),
        vec!["COUNT(*)"]
    );
}

#[test]
fn row_groups_scan_alone() {
    let (c, disk) = world();
    let p = planned(&c, "SELECT user FROM orders WHERE amount = 30", 1.0);
    let s = &p.scans[0];
    let mut r = Reader::open(disk[&s.files[0].path].clone()).unwrap();
    assert_eq!(scan_group(&mut r, s, 0).unwrap().len(), 1);
    assert_eq!(scan_group(&mut r, s, 1).unwrap().len(), 0);
}

#[test]
fn averages_order_by_ranks() {
    let rows = vec![
        vec![Val::F(10, 4)],
        vec![Val::F(9, 3)],
        vec![Val::F(1, 1)],
    ];
    let ranks = vec![1, 2, 0];
    let out = top_n(rows, Some((0, true)), Some(2), &ranks);
    assert_eq!(out.len(), 2);
    assert!(matches!(out[0][0], Val::F(9, 3)));
    assert!(matches!(out[1][0], Val::F(10, 4)));
}

#[test]
fn tables_are_drawn() {
    let head = vec!["name".to_string(), "n".to_string()];
    let rows = vec![
        vec!["ann".to_string(), "10".to_string()],
        vec!["bo".to_string(), "7".to_string()],
    ];
    assert_eq!(
        render(&head, &rows),
        "+------+----+\n| name | n  |\n+------+----+\n|  ann | 10 |\n|   bo |  7 |\n+------+----+\n"
    );
}

#[test]
fn small_parts() {
    assert_eq!(intersect_sorted(&[1, 3, 5, 7], &[0, 3, 4, 7]), vec![3, 7]);
    let rows: Vec<Vec<Cell>> = (-2..3).map(|k| vec![Cell::I(k)]).collect();
    let parts = partition_rows(&rows, 0, 2);
    assert_eq!(parts.len(), 2);
    assert_eq!(parts[0].len(), 3);
    assert_eq!(parts[1].len(), 2);
    let mut a = Acc::new();
    a.add_value(4);
    a.add_value(-6);
    let mut b = Acc::new();
    b.add_value(9);
    a.merge(&b);
    assert!(matches!(a.result(AggFn::Sum), Val::I(7)));
    assert!(matches!(a.result(AggFn::Min), Val::I(-6)));
    assert!(matches!(a.result(AggFn::Max), Val::I(9)));
    assert!(matches!(a.result(AggFn::Count), Val::I(3)));
    assert!(matches!(a.result(AggFn::Avg), Val::F(7, 3)));
}

#[test]
fn columns_of_predicates_are_not_projected() {
    let names = ["id", "gid", "amount", "ts"];
    let fields = names
        .iter()
        .zip(1..)
        .map(|(n, id)| Field { id, name: n.to_string(), dtype: DataType::Int64 })
        .collect();
    let sales = CatalogTable {
        name: "sales".to_string(),
        meta: TableMeta {
            uuid: "u".to_string(),
            location: "/w".to_string(),
            fields,
            current_snapshot: None,
            snapshots: vec![],
            last_sequence_number: 0,
        },
        files: vec![],
    };
    let c = Catalog { tables: vec![sales] };
    let p = planned(&c, "SELECT amount FROM sales WHERE ts > 10", 1.0);
    let s = &p.scans[0];
    assert_eq!(s.cols, vec![(2, "amount".to_string(), DataType::Int64)]);
    assert_eq!(s.preds.len(), 1);
    assert_eq!((s.preds[0].col_idx, s.preds[0].field_id), (3, 4));
    assert_eq!(s.preds[0].op, CmpOp::Gt);
    assert!(matches!(s.preds[0].lit, Literal::Int(10)));
    assert_eq!(p.output, vec![OutExpr::Col(0, 0)]);

    let (c, disk) = world();
    let p = planned(&c, "SELECT COUNT(*) FROM orders WHERE amount > 100", 1.0);
    assert_eq!(p.scans[0].cols.len(), 0);
    assert_eq!(run(&p, &disk), vec![vec!["2"]]);
    let p = planned(&c, "SELECT user FROM orders WHERE amount = 30", 1.0);
    assert_eq!(p.scans[0].cols.len(), 1);
    assert_eq!(run(&p, &disk), vec![vec!["1"]]);
}

#[test]
fn rows_that_match_nothing_ask_for_nothing() {
    let (c, _) = world();
    let p = planned(&c, JOINED, 1000.0);
    let j = p.join.as_ref().unwrap();
    assert_eq!((j.build, j.build_key, j.probe_key), (1, 0, 0));
    let orders = vec![
        vec![Cell::I(1), Cell::I(10)],
        vec![Cell::I(7)],
    ];
    let users = vec![
        vec![Cell::I(1), Cell::S("ann".to_string())],
        vec![Cell::S("x".to_string())],
        vec![Cell::I(3)],
    ];
    let tables = vec![orders, users];
    assert!(check_run(&p, &tables));
    let r = execute(&p, &tables);
    assert_eq!(r.joined_rows, 1);
    assert_eq!(r.scanned_rows, 2);
    assert_eq!(r.rows.len(), 1);
    let s = planned(&c, JOINED, 5_000_000.0);
    assert!(!check_run(&s, &tables));
    let ungrouped = PhysicalPlan { group_by: vec![], ..planned(&c, JOINED, 1000.0) };
    assert!(!check_run(&ungrouped, &tables));
    assert!(check_run(&ungrouped, &vec![vec![], vec![]]));
    assert_eq!(execute(&ungrouped, &vec![vec![], vec![]]).rows.len(), 0);
}

#[test]
fn strategies_differ_in_what_counts_as_scanned() {
    let (c, _) = world();
    let orders = vec![
        vec![Cell::I(-1), Cell::I(10)],
        vec![Cell::I(2), Cell::I(20)],
    ];
    let users = vec![
        vec![Cell::I(2), Cell::S("bob".to_string())],
        vec![Cell::I(-1), Cell::S("ann".to_string())],
        vec![Cell::I(9), Cell::S("cy".to_string())],
    ];
    let tables = vec![orders, users];
    let (b, s) = (planned(&c, JOINED, 1000.0), planned(&c, JOINED, 5_000_000.0));
    let (x, y) = (execute(&b, &tables), execute(&s, &tables));
    assert_eq!((x.joined_rows, y.joined_rows), (2, 2));
    assert_eq!((x.scanned_rows, y.scanned_rows), (2, 5));
    let texts = |rows: Vec<Vec<Val>>| -> Vec<Vec<String>> {
        let ranks = vec![0; rows.len()];
        let out = top_n(rows, Some((1, true)), None, &ranks);
        out.iter().map(|r| r.iter().map(|v| v.text("avg")).collect()).collect()
    };
    let want = vec![vec!["bob", "20", "1"], vec!["ann", "10", "1"]];
    assert_eq!(texts(x.rows), want);
    assert_eq!(texts(y.rows), want);
    assert_eq!(header(&b.scans, &b.output), header(&s.scans, &s.output));
}
