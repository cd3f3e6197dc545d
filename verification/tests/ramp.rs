//! Kernels, clustering, the query text and the ramp of workers.
use blitz::cluster::{zorder, ClusteredTable, LiquidStats, ZoneMap};
use blitz::kernel::{filter_i64, group_agg, sum_i64, sum_i64_sel, Block, CmpOp, Column};
use blitz::ramp::message::{
    read_partial_msg, read_query, write_partial, write_query, PartialMessage, MSG_DONE, MSG_NEXT,
    MSG_PARTIAL, MSG_QUERY,
};
use blitz::ramp::morsel::{exec_morsel, Partial};
use blitz::ramp::resolve::resolve_table_source;
use blitz::ramp::schedule::{
    apply_order_limit, needed_columns, run_alone, start, work, RampError, Served, Session, Shared,
};
use blitz::ramp::shuffle::{partition_key, serialize_shuffled_block};
use blitz::ramp::worker::{inlined_block, morsel_message, read_message, Message, Reply, Worker};
use blitz::sample::{gen_plain_table, gen_table, Rng, SEED};
use blitz::sql::{parse, split_words, AggFn, Query, TableSource};

fn block(a: Vec<i64>, b: Vec<i64>) -> Block {
    let rows = a.len();
    Block {
        columns: vec![Column::I64(a), Column::I64(b)],
        rows,
    }
}

fn table() -> ClusteredTable {
    ClusteredTable::from_blocks(vec![
        block(vec![1, 2, 3], vec![10, 20, 30]),
        block(vec![4, 5, 1], vec![40, 50, 60]),
        block(vec![100, 101, 102], vec![7, 8, 9]),
    ])
}

#[test]
fn kernels_filter_and_sum() {
    let data = [5, -1, 7, 7];
    assert_eq!(filter_i64(&data, CmpOp::Ge, 5), vec![0, 2, 3]);
    let a = sum_i64(&data);
    assert_eq!((a.sum, a.count, a.min, a.max), (18, 4, -1, 7));
    assert_eq!(sum_i64_sel(&data, &[1, 2]).sum, 6);
    let g = group_agg(&[1, 2, 1], &[10, 20, 30], None);
    assert_eq!(g.len(), 2);
    assert_eq!(g[&1].sum, 40);
    assert_eq!(g[&2].count, 1);
    let g = group_agg(&[1, 2, 1], &[10, 20, 30], Some(&[0, 1]));
    assert_eq!(g[&1].sum, 10);
    for op in [CmpOp::Gt, CmpOp::Lt, CmpOp::Ge, CmpOp::Le, CmpOp::Eq] {
        assert_eq!(CmpOp::from_u8(op.to_u8()), op);
    }
}

#[test]
fn zones_prune() {
    let z = ZoneMap::build(&[3, 9, 5]);
    assert_eq!((z.min, z.max), (3, 9));
    assert!(z.prunes(CmpOp::Gt, 9));
    assert!(!z.prunes(CmpOp::Ge, 9));
    assert!(z.prunes(CmpOp::Lt, 3));
    assert!(z.prunes(CmpOp::Eq, 2));
    assert!(!z.prunes(CmpOp::Eq, 4));
}

#[test]
fn the_curve_interleaves() {
    assert_eq!(zorder(0, 0), 0);
    assert_eq!(zorder(1, 0), 1);
    assert_eq!(zorder(0, 1), 2);
    assert_eq!(zorder(3, 5), 0b100111);
    assert_eq!(zorder(u32::MAX, u32::MAX), u64::MAX);
}

#[test]
fn keys_follow_use() {
    let mut s = LiquidStats { predicate_hits: Default::default() };
    s.record_predicate(2);
    s.record_predicate(1);
    s.record_predicate(2);
    s.record_predicate(0);
    s.record_predicate(0);
    s.record_predicate(0);
    assert_eq!(s.choose_keys(), vec![0, 2]);
}

#[test]
fn reclustering_keeps_rows() {
    let mut t = table();
    let norms: Vec<Vec<Vec<u32>>> = vec![t
        .blocks
        .iter()
        .map(|b| b.columns[0].as_i64().iter().map(|v| *v as u32).collect())
        .collect()];
    t.recluster(vec![0], &norms);
    let mut all: Vec<i64> = Vec::new();
    for b in &t.blocks {
        all.extend_from_slice(b.columns[0].as_i64());
    }
    assert_eq!(all, vec![1, 1, 2, 3, 4, 5, 100, 101, 102]);
    assert_eq!(t.cluster_keys, vec![0]);
    let sums: i64 = t.blocks.iter().map(|b| sum_i64(b.columns[1].as_i64()).sum).sum();
    assert_eq!(sums, 234);
}

#[test]
fn texts_parse() {
    let q = parse("select avg(c1) from t where c0 >= 3 group by c0 order by c0 desc limit 4").unwrap();
    assert_eq!(q.agg, AggFn::Avg);
    assert_eq!(q.agg_col, 1);
    assert_eq!(q.filter, Some((0, CmpOp::Ge, 3)));
    assert_eq!(q.group_by, Some(0));
    assert_eq!(q.order_by, Some((0, false)));
    assert_eq!(q.limit, Some(4));
    match &q.table {
        TableSource::Table(t) => assert_eq!(t, "T"),
        _ => panic!("a table"),
    }
    assert_eq!(split_words(" a  b\tc "), vec!["a", "b", "c"]);
    assert!(parse("DELETE FROM T").is_err());
    assert_eq!(
        parse("select foo(c1) from t").err().unwrap(),
        "unknown agg Some(\"FOO\")"
    );
}

fn plain(agg: AggFn, filter: Option<(usize, CmpOp, i64)>, group_by: Option<usize>) -> Query {
    Query {
        agg,
        agg_col: 1,
        table: TableSource::Table("t".to_string()),
        filter,
        group_by,
        ctes: vec![],
        order_by: None,
        limit: None,
    }
}

#[test]
fn sources_resolve() {
    let inner = plain(AggFn::Sum, Some((0, CmpOp::Gt, 2)), None);
    let mut outer = plain(AggFn::Max, None, None);
    outer.table = TableSource::CTE("w".to_string());
    outer.ctes = vec![("w".to_string(), Box::new(inner))];
    let r = resolve_table_source(outer.copy()).unwrap();
    assert!(matches!(r.table, TableSource::Table(_)));
    assert_eq!(r.filter, Some((0, CmpOp::Gt, 2)));
    outer.ctes = vec![];
    assert!(resolve_table_source(outer).is_err());
}

#[test]
fn morsels_add_up() {
    let t = table();
    let q = plain(AggFn::Sum, Some((0, CmpOp::Lt, 4)), Some(0));
    let p = exec_morsel(&t.blocks[1], &q);
    assert_eq!(p.groups.len(), 1);
    assert_eq!(p.groups[&1].sum, 60);
    let r = run_alone(&t, q.copy()).unwrap();
    assert_eq!(r.morsels_pruned, 1);
    assert_eq!(r.morsels_executed, 2);
    assert_eq!(r.result.groups[&1].sum, 70);
    assert_eq!(r.result.groups[&3].sum, 30);
    let r = run_alone(&t, plain(AggFn::Sum, None, None)).unwrap();
    assert_eq!(r.result.scalar.sum, 234);
    assert_eq!(r.result.scalar.count, 9);
    let mut bad = plain(AggFn::Sum, None, None);
    bad.agg_col = 9;
    assert!(matches!(run_alone(&t, bad), Err(RampError::NoColumn)));
    let mut lost = plain(AggFn::Sum, None, None);
    lost.table = TableSource::CTE("x".to_string());
    let r = run_alone(&t, lost).unwrap();
    assert_eq!(r.note.as_deref(), Some("query resolve failed: unknown CTE x"));
    assert_eq!(r.result.groups.len(), 0);
    assert_eq!(r.result.scalar.count, 0);
    assert_eq!((r.morsels_executed, r.morsels_pruned), (0, 0));
}

#[test]
fn queries_travel() {
    let q = plain(AggFn::Min, Some((0, CmpOp::Le, -7)), Some(0));
    let mut out = Vec::new();
    write_query(&mut out, &q);
    assert_eq!(out[0], MSG_QUERY);
    let back = read_query(&out[1..]).unwrap();
    assert_eq!(back.agg, AggFn::Min);
    assert_eq!(back.filter, q.filter);
    assert_eq!(back.group_by, q.group_by);
    assert!(read_query(&out[1..out.len() - 1]).is_none());
}

#[test]
fn partials_travel() {
    let t = table();
    let p = exec_morsel(&t.blocks[0], &plain(AggFn::Sum, None, Some(0)));
    let mut out = Vec::new();
    write_partial(&mut out, &p);
    assert_eq!(out[0], MSG_PARTIAL);
    match read_partial_msg(&out) {
        PartialMessage::Partial(b) => {
            assert_eq!(b.groups.len(), 3);
            assert_eq!(b.groups[&2].sum, 20);
        }
        _ => panic!("a partial"),
    }
    assert!(matches!(
        read_partial_msg(&out[..out.len() - 1]),
        PartialMessage::More
    ));
    assert!(matches!(read_partial_msg(&[9]), PartialMessage::Other));
}

/// Runs one worker against a session until the queue is empty.
fn serve(t: &ClusteredTable, q: &Query, ship: bool, shared: &mut Shared) -> usize {
    let (mut s, hello) = Session::open(q, ship);
    assert_eq!(hello[0], MSG_QUERY);
    let mut w = Worker::new(read_query(&hello[1..]).unwrap());
    loop {
        let sent = match s.request(shared, t, MSG_NEXT) {
            Served::Send(b) => b,
            Served::Last(b) => {
                assert_eq!(b[0], MSG_DONE);
                b
            }
            Served::Close => panic!("still open"),
        };
        let mut pos = 0;
        let m = read_message(&sent, &mut pos).unwrap();
        assert_eq!(pos, sent.len());
        let storage = if ship { None } else { Some(t) };
        match w.react(m, storage) {
            Reply::Send(b) => match read_partial_msg(&b) {
                PartialMessage::Partial(p) => assert!(s.settle(shared, Some(p))),
                _ => panic!("a partial"),
            },
            Reply::Stop(n) => return n,
            _ => panic!("an answer"),
        }
    }
}

#[test]
fn workers_reach_the_same_result() {
    let t = table();
    let q = plain(AggFn::Sum, None, Some(0));
    for ship in [false, true] {
        let mut r = start(&t, q.copy()).unwrap();
        assert_eq!(serve(&t, &r.query, ship, &mut r.shared), 3);
        assert!(r.shared.complete());
        assert_eq!(r.shared.result.groups[&1].sum, 70);
        assert_eq!(r.shared.result.groups.len(), 8);
    }
}

#[test]
fn lost_workers_lose_no_morsel() {
    let t = table();
    let mut r = start(&t, plain(AggFn::Sum, None, None)).unwrap();
    let (mut s, _) = Session::open(&r.query, false);
    assert!(matches!(
        s.request(&mut r.shared, &t, MSG_NEXT),
        Served::Send(_)
    ));
    assert_eq!(r.shared.queue.len(), 2);
    s.settle(&mut r.shared, None);
    assert_eq!(r.shared.queue.len(), 3);
    assert_eq!(work(&mut r.shared, &t, &r.query), 3);
    assert_eq!(r.shared.result.scalar.sum, 234);
    let (mut s, _) = Session::open(&r.query, false);
    assert!(matches!(s.request(&mut r.shared, &t, 77), Served::Close));
}

#[test]
fn messages_are_read() {
    let m = morsel_message(5);
    let mut pos = 0;
    assert!(matches!(
        read_message(&m, &mut pos),
        Some(Message::Morsel(5))
    ));
    let mut pos = 0;
    assert!(read_message(&m[..2], &mut pos).is_none());
    let mut pos = 0;
    assert!(matches!(
        read_message(&[MSG_DONE], &mut pos),
        Some(Message::Done)
    ));
    let mut pos = 0;
    assert!(matches!(
        read_message(&[99], &mut pos),
        Some(Message::Unknown(99))
    ));
    let b = inlined_block(&vec![(1, vec![4, 5])]).unwrap();
    assert_eq!(b.rows, 2);
    assert_eq!(b.columns[1].as_i64(), &[4, 5]);
}

#[test]
fn shuffled_blocks_are_whole() {
    let b = block(vec![0, 1, 2, 3, 4], vec![5, 6, 7, 8, 9]);
    let parts = serialize_shuffled_block(&b, 0, 2);
    let mut w = Worker::new(plain(AggFn::Sum, None, None));
    let mut total = 0;
    for (id, bytes) in &parts {
        assert!(*id < 2);
        let mut pos = 0;
        let m = read_message(bytes, &mut pos).unwrap();
        assert!(matches!(m, Message::Shuffle(_, _)));
        match w.react(m, None) {
            Reply::Send(b) => match read_partial_msg(&b) {
                PartialMessage::Partial(p) => total += p.scalar.sum,
                _ => panic!("a partial"),
            },
            Reply::Wait => {}
            _ => panic!("an answer"),
        }
    }
    total += w.shuffled.iter().map(|p| p.scalar.sum).sum::<i64>();
    assert_eq!(total, 35);
    assert_eq!(partition_key(7, 4), partition_key(7, 4));
    assert!(partition_key(-7, 4) < 4);
}

#[test]
fn groups_are_cut() {
    let t = table();
    let mut p: Partial = run_alone(&t, plain(AggFn::Sum, None, Some(0))).unwrap().result;
    apply_order_limit(&mut p, Some((0, true)), Some(2));
    assert_eq!(p.groups.len(), 2);
    assert!(needed_columns(&plain(AggFn::Sum, Some((0, CmpOp::Eq, 1)), None)).contains(&0));
}

#[test]
fn samples_repeat() {
    let mut a = Rng::new(SEED);
    let mut b = Rng::new(SEED);
    assert_eq!(a.next(), b.next());
    assert!(a.range(10) < 10);
    let t = gen_table(10);
    assert_eq!(t.len(), 1);
    assert_eq!(t[0].columns.len(), 4);
    assert_eq!(t[0].rows, 10);
    let p = gen_plain_table(70_000);
    assert_eq!(p.len(), 2);
    assert_eq!(p[0].columns.len(), 3);
    assert_eq!(p[1].rows, 70_000 - 65_536);
}

#[test]
fn workers_refuse_what_they_cannot_do() {
    let mut w = Worker::new(plain(AggFn::Sum, None, None));
    assert!(matches!(w.react(Message::Unknown(9), None), Reply::Invalid));
    assert!(matches!(w.react(Message::Morsel(0), None), Reply::Unsound));
    assert!(matches!(w.react(Message::Done, None), Reply::Stop(0)));
}

#[test]
fn deep_sources_are_refused() {
    let mut q = plain(AggFn::Sum, None, None);
    for _ in 0..31 {
        let inner = q;
        q = plain(AggFn::Max, None, None);
        q.table = TableSource::Subquery(Box::new(inner), "s".to_string());
    }
    assert!(resolve_table_source(q.copy()).is_ok());
    let mut over = plain(AggFn::Max, None, None);
    over.table = TableSource::Subquery(Box::new(q), "s".to_string());
    assert_eq!(
        resolve_table_source(over).err().unwrap(),
        "CTE/subquery nesting too deep"
    );
}

#[test]
fn named_expressions_parse() {
    let q = parse("WITH x AS (SELECT SUM(c1) FROM t) SELECT SUM(c1) FROM x").unwrap();
    assert!(matches!(&q.table, TableSource::CTE(n) if n == "X"));
    assert_eq!((q.agg, q.agg_col), (AggFn::Sum, 1));
    assert_eq!((q.filter, q.group_by, q.order_by, q.limit), (None, None, None, None));
    assert_eq!(q.ctes.len(), 1);
    let (name, body) = &q.ctes[0];
    assert_eq!(name, "X");
    assert!(matches!(&body.table, TableSource::Table(n) if n == "T"));
    assert_eq!((body.agg, body.agg_col), (AggFn::Sum, 1));
    assert_eq!((body.filter, body.group_by), (None, None));
    assert_eq!((body.order_by, body.limit), (None, None));
    assert_eq!(body.ctes.len(), 0);

    let q = parse(
        "WITH a AS (SELECT MIN(c1) FROM t WHERE c0 > 2), b AS (SELECT MAX(c1) FROM t) \
         SELECT COUNT(c1) FROM b LIMIT 5",
    )
    .unwrap();
    assert_eq!(q.ctes.len(), 2);
    assert_eq!(q.ctes[0].1.agg, AggFn::Min);
    assert_eq!(q.ctes[0].1.filter, Some((0, CmpOp::Gt, 2)));
    assert_eq!(q.ctes[1].1.agg, AggFn::Max);
    assert_eq!(q.limit, Some(5));
    assert!(parse("WITH x SELECT SUM(c1) FROM x").is_err());
}

#[test]
fn subqueries_parse() {
    let q = parse("SELECT SUM(c1) FROM (SELECT MAX(c1) FROM t WHERE c0 < 4) s LIMIT 2").unwrap();
    assert_eq!((q.agg, q.limit), (AggFn::Sum, Some(2)));
    match &q.table {
        TableSource::Subquery(inner, alias) => {
            assert_eq!(alias, "S");
            assert!(matches!(&inner.table, TableSource::Table(n) if n == "T"));
            assert_eq!((inner.agg, inner.agg_col), (AggFn::Max, 1));
            assert_eq!(inner.filter, Some((0, CmpOp::Lt, 4)));
            assert_eq!(inner.limit, None);
        }
        _ => panic!("a subquery"),
    }
    let r = run_alone(&table(), q).unwrap();
    assert_eq!(r.result.scalar.max, 60);
    let q = parse("SELECT SUM(c1) FROM (SELECT SUM(c1) FROM (SELECT SUM(c1) FROM t))").unwrap();
    assert!(matches!(&q.table, TableSource::Subquery(_, a) if a == "subq"));
    let q = parse("SELECT SUM(c1) FROM (SELECT SUM(c1) FROM t) AS s").unwrap();
    assert!(matches!(&q.table, TableSource::Subquery(_, a) if a == "S"));
    for from in ["AS s WHERE", "s WHERE", "WHERE"] {
        let sql = format!("SELECT SUM(c1) FROM (SELECT SUM(c1) FROM t) {from} c0 > 3 LIMIT 7");
        let q = parse(&sql).unwrap();
        assert_eq!((q.filter, q.limit), (Some((0, CmpOp::Gt, 3)), Some(7)));
    }
    assert_eq!(
        parse("SELECT SUM(c1) FROM (SELECT SUM(c1) FROM t) AS").err().unwrap(),
        "missing alias"
    );
    let r = run_alone(
        &table(),
        parse("WITH x AS (SELECT SUM(c1) FROM t) SELECT SUM(c1) FROM x").unwrap(),
    );
    assert_eq!(r.unwrap().result.scalar.sum, 234);
}
