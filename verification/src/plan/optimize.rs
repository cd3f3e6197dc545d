//! File pruning, the figures that row estimates rest on, the join strategy,
//! and the plan in words.
use crate::format::meta::{CmpOp, DataType, LitView, Literal};
use crate::iceberg::table::{
    bound_of, de_long, field_views, file_prunes, file_views, file_views_push, find_bound, long_of,
    longs_readable, prunes, DataFile, Field, FieldSpec, FileView,
};
use crate::plan::physical::{
    scan_views, BoundPlan, BoundPred, BoundPredView, JoinKeys, JoinNode, JoinStrategy, PhysicalPlan,
    ScanNode, ScanView,
};
use crate::text::{dec, dec_int, join2, push_dec, push_dec_int};
use vstd::prelude::*;

verus! {

// ---------------------------------------------------------------------------
// Files
// ---------------------------------------------------------------------------

/// The type of the first field with an id.
pub open spec fn dtype_of(fields: Seq<FieldSpec>, id: i32) -> Option<DataType>
    decreases fields.len(),
{
    if fields.len() == 0 {
        None
    } else if fields[0].id == id {
        Some(fields[0].dtype)
    } else {
        dtype_of(fields.skip(1), id)
    }
}

pub open spec fn pred_prunes(s: ScanView, f: FileView, p: BoundPredView) -> bool {
    prunes(f, p.field_id, dtype_of(s.meta.fields, p.field_id)->0, p.op, p.lit)
}

/// Whether some predicate of a scan rules a file out.
pub open spec fn scan_prunes(s: ScanView, f: FileView) -> bool {
    exists|k: int| 0 <= k < s.preds.len() && pred_prunes(s, f, #[trigger] s.preds[k])
}

/// The files that no predicate rules out, in order.
pub open spec fn kept_files(s: ScanView, files: Seq<FileView>) -> Seq<FileView>
    decreases files.len(),
{
    if files.len() == 0 {
        Seq::empty()
    } else {
        let k = kept_files(s, files.drop_last());
        if scan_prunes(s, files.last()) { k } else { k.push(files.last()) }
    }
}

/// A scan without the files that its predicates rule out.
pub open spec fn pruned(s: ScanView) -> ScanView {
    let kept = kept_files(s, s.files);
    ScanView { files: kept, files_pruned: s.files.len() - kept.len(), ..s }
}

/// Whether the bounds that a predicate is held against can be read.
pub open spec fn pred_readable(s: ScanView, p: BoundPredView) -> bool {
    &&& dtype_of(s.meta.fields, p.field_id) is Some
    &&& p.lit is Int ==> forall|i: int|
        0 <= i < s.files.len() ==> longs_readable(#[trigger] s.files[i], p.field_id)
}

/// Whether all bounds that a scan's predicates are held against can be read.
pub open spec fn scan_readable(s: ScanView) -> bool {
    forall|k: int| 0 <= k < s.preds.len() ==> pred_readable(s, #[trigger] s.preds[k])
}

fn find_dtype(fields: &Vec<Field>, id: i32) -> (r: Option<DataType>)
    ensures
        r == dtype_of(field_views(fields@), id),
{
    let ghost fv = field_views(fields@);
    let mut i: usize = 0;
    assert(fv.skip(0) =~= fv);
    while i < fields.len()
        invariant
            i <= fields@.len(),
            fv == field_views(fields@),
            dtype_of(fv, id) == dtype_of(fv.skip(i as int), id),
        decreases fields@.len() - i,
    {
        assert(fv.skip(i as int)[0] == fields@[i as int]@);
        assert(fv.skip(i as int).skip(1) =~= fv.skip(i + 1));
        if fields[i].id == id {
            return Some(fields[i].dtype);
        }
        i += 1;
    }
    None
}

fn file_readable(f: &DataFile, id: i32) -> (r: bool)
    ensures
        r == longs_readable(f@, id),
{
    match find_bound(f, id) {
        None => true,
        Some(i) => f.bounds[i].1.len() >= 8 && f.bounds[i].2.len() >= 8,
    }
}

/// Whether pruning and estimating can read every bound they look at.
pub fn bounds_readable(s: &ScanNode) -> (r: bool)
    ensures
        r == scan_readable(s@),
{
    let mut k: usize = 0;
    while k < s.preds.len()
        invariant
            k <= s.preds@.len(),
            forall|j: int| 0 <= j < k ==> pred_readable(s@, #[trigger] s@.preds[j]),
        decreases s.preds@.len() - k,
    {
        let p: &BoundPred = &s.preds[k];
        assert(s@.preds[k as int] == p@);
        if find_dtype(&s.meta.fields, p.field_id).is_none() {
            assert(!pred_readable(s@, s@.preds[k as int]));
            return false;
        }
        let is_int: bool = match &p.lit {
            Literal::Int(_) => true,
            Literal::Str(_) => false,
        };
        if is_int {
            let mut i: usize = 0;
            while i < s.files.len()
                invariant
                    i <= s.files@.len(),
                    k < s.preds@.len(),
                    p@.lit is Int,
                    s@.preds[k as int] == p@,
                    forall|j: int|
                        0 <= j < i ==> longs_readable(#[trigger] s@.files[j], p.field_id),
                decreases s.files@.len() - i,
            {
                assert(s@.files[i as int] == s.files@[i as int]@);
                if !file_readable(&s.files[i], p.field_id) {
                    assert(!pred_readable(s@, s@.preds[k as int]));
                    return false;
                }
                i += 1;
            }
        }
        assert(pred_readable(s@, s@.preds[k as int]));
        k += 1;
    }
    true
}

fn ruled_out(s: &ScanNode, i: usize) -> (r: bool)
    requires
        i < s.files@.len(),
        scan_readable(s@),
    ensures
        r == scan_prunes(s@, s@.files[i as int]),
{
    let f: &DataFile = &s.files[i];
    assert(s@.files[i as int] == f@);
    let mut k: usize = 0;
    while k < s.preds.len()
        invariant
            k <= s.preds@.len(),
            i < s.files@.len(),
            f@ == s@.files[i as int],
            scan_readable(s@),
            forall|j: int| 0 <= j < k ==> !pred_prunes(s@, f@, #[trigger] s@.preds[j]),
        decreases s.preds@.len() - k,
    {
        let p: &BoundPred = &s.preds[k];
        assert(s@.preds[k as int] == p@);
        assert(pred_readable(s@, s@.preds[k as int]));
        match find_dtype(&s.meta.fields, p.field_id) {
            Some(dt) => {
                if file_prunes(f, p.field_id, dt, p.op, &p.lit) {
                    assert(pred_prunes(s@, f@, s@.preds[k as int]));
                    return true;
                }
            },
            None => {},
        }
        k += 1;
    }
    false
}

/// Drops the files that a scan's predicates rule out.
pub fn prune_scan(s: &mut ScanNode)
    requires
        scan_readable(old(s)@),
    ensures
        final(s)@ == pruned(old(s)@),
{
    let ghost fv = s@.files;
    let before: usize = s.files.len();
    let mut kept: Vec<DataFile> = Vec::new();
    let mut k: usize = 0;
    assert(fv.take(0) =~= Seq::<FileView>::empty());
    assert(file_views(kept@) =~= Seq::<FileView>::empty());
    while k < s.files.len()
        invariant
            k <= s.files@.len(),
            *s == *old(s),
            scan_readable(s@),
            fv == s@.files,
            kept@.len() <= k,
            file_views(kept@) == kept_files(s@, fv.take(k as int)),
        decreases s.files@.len() - k,
    {
        proof {
            assert(fv.take(k + 1).drop_last() =~= fv.take(k as int));
            assert(fv.take(k + 1).last() == fv[k as int]);
        }
        if !ruled_out(s, k) {
            let f: DataFile = s.files[k].copy();
            proof {
                file_views_push(kept@, f);
            }
            kept.push(f);
        }
        k += 1;
    }
    assert(fv.take(k as int) =~= fv);
    s.files_pruned = before - kept.len();
    s.files = kept;
    assert(s@ =~= pruned(old(s)@));
}

/// A file that pruning keeps was there before, and one that it drops is ruled
/// out by a predicate.
pub proof fn pruning_drops_only_ruled_out(s: ScanView, f: FileView)
    ensures
        kept_files(s, s.files).contains(f) <==> s.files.contains(f) && !scan_prunes(s, f),
{
    kept_exactly(s, s.files, f);
}

proof fn kept_exactly(s: ScanView, files: Seq<FileView>, f: FileView)
    ensures
        kept_files(s, files).contains(f) <==> files.contains(f) && !scan_prunes(s, f),
        kept_files(s, files).len() <= files.len(),
    decreases files.len(),
{
    if files.len() > 0 {
        let d = files.drop_last();
        let k = kept_files(s, d);
        kept_exactly(s, d, f);
        if files.contains(f) {
            let i = choose|i: int| 0 <= i < files.len() && files[i] == f;
            if i < d.len() {
                assert(d[i] == f);
            }
        }
        if d.contains(f) {
            let i = choose|i: int| 0 <= i < d.len() && d[i] == f;
            assert(files[i] == f);
        }
        assert(files[files.len() - 1] == files.last());
        if !scan_prunes(s, files.last()) {
            let t = k.push(files.last());
            assert(t[k.len() as int] == files.last());
            if k.contains(f) {
                let i = choose|i: int| 0 <= i < k.len() && k[i] == f;
                assert(t[i] == f);
            }
            if t.contains(f) {
                let i = choose|i: int| 0 <= i < t.len() && t[i] == f;
                if i < k.len() {
                    assert(k[i] == f);
                }
            }
        }
    }
}

// ---------------------------------------------------------------------------
// Estimates
// ---------------------------------------------------------------------------

/// The share of rows that a predicate keeps, before it becomes a number.
#[derive(Clone, Copy, Debug, PartialEq, Eq, Structural)]
pub enum Selectivity {
    /// No bounds are known: all rows.
    All,
    /// The part of the domain that qualifies, and the whole, at most one.
    Part(i128, i128),
    /// One value of a domain, of which at most a thousand count.
    OneOf(i128),
    /// Equality of text.
    Guess,
}

/// The least lower and the greatest upper bound on a field over some files.
pub open spec fn domain(files: Seq<FileView>, id: i32) -> (i64, i64)
    decreases files.len(),
{
    if files.len() == 0 {
        (i64::MAX, i64::MIN)
    } else {
        let (lo, hi) = domain(files.drop_last(), id);
        match bound_of(files.last().bounds, id) {
            None => (lo, hi),
            Some(b) => (
                if long_of(b.lower) < lo { long_of(b.lower) } else { lo },
                if long_of(b.upper) > hi { long_of(b.upper) } else { hi },
            ),
        }
    }
}

pub open spec fn at_least(x: int, y: int) -> int {
    if x > y { x } else { y }
}

/// The share of rows, on the assumption that values are spread evenly.
pub open spec fn share(files: Seq<FileView>, p: BoundPredView) -> Selectivity {
    match p.lit {
        LitView::Str(_) => Selectivity::Guess,
        LitView::Int(l) => {
            let (lo, hi) = domain(files, p.field_id);
            let whole = at_least(hi - lo, 1);
            if lo > hi {
                Selectivity::All
            } else {
                match p.op {
                    CmpOp::Gt => Selectivity::Part(at_least(hi - l, 0) as i128, whole as i128),
                    CmpOp::Ge => Selectivity::Part(at_least(hi - l, 0) as i128, whole as i128),
                    CmpOp::Lt => Selectivity::Part(at_least(l - lo, 0) as i128, whole as i128),
                    CmpOp::Le => Selectivity::Part(at_least(l - lo, 0) as i128, whole as i128),
                    CmpOp::Eq => Selectivity::OneOf(whole as i128),
                }
            }
        },
    }
}

fn floor_at(x: i128, y: i128) -> (r: i128)
    ensures
        r == at_least(x as int, y as int),
{
    if x > y {
        x
    } else {
        y
    }
}

/// What share of the rows of some files a predicate keeps.
pub fn selectivity(files: &Vec<DataFile>, p: &BoundPred) -> (r: Selectivity)
    requires
        p.lit is Int ==> forall|i: int|
            0 <= i < files@.len() ==> longs_readable(#[trigger] file_views(files@)[i], p.field_id),
    ensures
        r == share(file_views(files@), p@),
{
    let l: i64 = match &p.lit {
        Literal::Str(_) => {
            return Selectivity::Guess;
        },
        Literal::Int(l) => *l,
    };
    let ghost fv = file_views(files@);
    let mut lo: i64 = i64::MAX;
    let mut hi: i64 = i64::MIN;
    let mut k: usize = 0;
    assert(fv.take(0) =~= Seq::<FileView>::empty());
    while k < files.len()
        invariant
            k <= files@.len(),
            fv == file_views(files@),
            forall|i: int|
                0 <= i < fv.len() ==> longs_readable(#[trigger] fv[i], p.field_id),
            (lo, hi) == domain(fv.take(k as int), p.field_id),
        decreases files@.len() - k,
    {
        proof {
            assert(fv.take(k + 1).drop_last() =~= fv.take(k as int));
            assert(fv.take(k + 1).last() == fv[k as int]);
            assert(longs_readable(fv[k as int], p.field_id));
        }
        if let Some(i) = find_bound(&files[k], p.field_id) {
            assert(fv[k as int].bounds[i as int].lower == files@[k as int].bounds@[i as int].1@);
            assert(fv[k as int].bounds[i as int].upper == files@[k as int].bounds@[i as int].2@);
            let a: i64 = de_long(files[k].bounds[i].1.as_slice());
            let b: i64 = de_long(files[k].bounds[i].2.as_slice());
            if a < lo {
                lo = a;
            }
            if b > hi {
                hi = b;
            }
        }
        k += 1;
    }
    assert(fv.take(k as int) =~= fv);
    if lo > hi {
        return Selectivity::All;
    }
    let whole: i128 = floor_at(hi as i128 - lo as i128, 1);
    match p.op {
        CmpOp::Gt => Selectivity::Part(floor_at(hi as i128 - l as i128, 0), whole),
        CmpOp::Ge => Selectivity::Part(floor_at(hi as i128 - l as i128, 0), whole),
        CmpOp::Lt => Selectivity::Part(floor_at(l as i128 - lo as i128, 0), whole),
        CmpOp::Le => Selectivity::Part(floor_at(l as i128 - lo as i128, 0), whole),
        CmpOp::Eq => Selectivity::OneOf(whole),
    }
}

// ---------------------------------------------------------------------------
// The join strategy
// ---------------------------------------------------------------------------

/// The estimated size below which a build side is broadcast: four mebibytes,
/// as the bits of a double.
pub const BROADCAST_THRESHOLD_BYTES: u64 = 0x4150_0000_0000_0000;

/// How many partitions a shuffle has.
pub const SHUFFLE_PARTITIONS: usize = 16;

/// The estimated rows of a scan and the bytes they take, as the bits of
/// doubles that are not negative.
#[derive(Clone, Copy, Debug, PartialEq, Eq, Structural)]
pub struct Estimate {
    pub rows: u64,
    pub bytes: u64,
}

/// How to join: the side with fewer estimated rows is built, and broadcast if
/// it is small.
pub open spec fn join_choice(k: JoinKeys, est: Seq<Estimate>) -> JoinNode {
    let left = est[k.lscan as int].rows <= est[k.rscan as int].rows;
    let build = if left { k.lscan } else { k.rscan };
    JoinNode {
        build,
        probe: if left { k.rscan } else { k.lscan },
        build_key: if left { k.lpos } else { k.rpos },
        probe_key: if left { k.rpos } else { k.lpos },
        strategy: if est[build as int].bytes < BROADCAST_THRESHOLD_BYTES {
            JoinStrategy::Broadcast
        } else {
            JoinStrategy::Shuffle { partitions: SHUFFLE_PARTITIONS }
        },
    }
}

/// The scans with their estimates.
pub open spec fn estimated(scans: Seq<ScanView>, est: Seq<Estimate>) -> Seq<ScanView> {
    Seq::new(scans.len(), |i: int| ScanView { est_rows: est[i].rows, ..scans[i] })
}

fn choose_join(k: JoinKeys, est: &Vec<Estimate>) -> (r: JoinNode)
    requires
        k.lscan < est@.len(),
        k.rscan < est@.len(),
    ensures
        r == join_choice(k, est@),
{
    let left: bool = est[k.lscan].rows <= est[k.rscan].rows;
    let build: usize = if left {
        k.lscan
    } else {
        k.rscan
    };
    let strategy: JoinStrategy = if est[build].bytes < BROADCAST_THRESHOLD_BYTES {
        JoinStrategy::Broadcast
    } else {
        JoinStrategy::Shuffle { partitions: SHUFFLE_PARTITIONS }
    };
    if left {
        JoinNode { build, probe: k.rscan, build_key: k.lpos, probe_key: k.rpos, strategy }
    } else {
        JoinNode { build, probe: k.lscan, build_key: k.rpos, probe_key: k.lpos, strategy }
    }
}

/// Settles a bound statement's plan by the estimates of its scans.
pub fn plan(b: BoundPlan, est: &Vec<Estimate>) -> (p: PhysicalPlan)
    requires
        est@.len() == b.scans@.len(),
        b.join matches Some(k) ==> k.lscan < est@.len() && k.rscan < est@.len(),
    ensures
        scan_views(p.scans@) == estimated(b@.scans, est@),
        p.join == (match b.join {
            Some(k) => Some(join_choice(k, est@)),
            None => None,
        }),
        p.output@ == b.output@,
        p.group_by@ == b.group_by@,
        p.order_by == b.order_by,
        p.limit == b.limit,
        p.two_phase_agg == b.two_phase_agg,
{
    let mut scans: Vec<ScanNode> = b.scans;
    let ghost sv = scan_views(b.scans@);
    let mut i: usize = 0;
    while i < scans.len()
        invariant
            i <= scans@.len(),
            scans@.len() == est@.len(),
            sv.len() == scans@.len(),
            forall|k: int| 0 <= k < i ==> scan_views(scans@)[k] == estimated(sv, est@)[k],
            forall|k: int| i <= k < scans@.len() ==> scan_views(scans@)[k] == sv[k],
        decreases scans@.len() - i,
    {
        let ghost before = scans@;
        let rows: u64 = est[i].rows;
        assert(scan_views(before)[i as int] == before[i as int]@);
        scans[i].est_rows = rows;
        proof {
            assert(scans@ =~= before.update(i as int, scans@[i as int]));
            assert(scans@[i as int]@ =~= ScanView { est_rows: rows, ..before[i as int]@ });
            assert(scan_views(scans@)[i as int] == estimated(sv, est@)[i as int]);
            assert forall|k: int| 0 <= k < i + 1 implies scan_views(scans@)[k] == estimated(
                sv,
                est@,
            )[k] by {
                if k < i {
                    assert(scans@[k] == before[k]);
                    assert(scan_views(before)[k] == estimated(sv, est@)[k]);
                }
            }
            assert forall|k: int| i < k < scans@.len() implies scan_views(scans@)[k] == sv[k] by {
                assert(scans@[k] == before[k]);
                assert(scan_views(before)[k] == sv[k]);
            }
        }
        i += 1;
    }
    assert(scan_views(scans@) =~= estimated(sv, est@));
    let join: Option<JoinNode> = match b.join {
        Some(k) => Some(choose_join(k, est)),
        None => None,
    };
    PhysicalPlan {
        scans,
        join,
        output: b.output,
        group_by: b.group_by,
        order_by: b.order_by,
        limit: b.limit,
        two_phase_agg: b.two_phase_agg,
    }
}

/// The build side is never the one with more estimated rows, both sides are
/// those of the keys, and only a side under the threshold is broadcast.
pub proof fn build_side_is_smaller(k: JoinKeys, est: Seq<Estimate>)
    requires
        k.lscan < est.len(),
        k.rscan < est.len(),
    ensures
        ({
            let j = join_choice(k, est);
            &&& est[j.build as int].rows <= est[j.probe as int].rows
            &&& (j.build == k.lscan && j.build_key == k.lpos && j.probe == k.rscan && j.probe_key
                == k.rpos) || (j.build == k.rscan && j.build_key == k.rpos && j.probe == k.lscan
                && j.probe_key == k.lpos)
            &&& j.strategy == JoinStrategy::Broadcast <==> est[j.build as int].bytes
                < BROADCAST_THRESHOLD_BYTES
        }),
{
}

// ---------------------------------------------------------------------------
// The plan in words
// ---------------------------------------------------------------------------

/// A scan's estimated and total rows and their ratio in percent, in words.
#[derive(Clone, Debug)]
pub struct Figures {
    pub est: String,
    pub total: String,
    pub percent: String,
}

#[verifier::ext_equal]
pub struct FiguresView {
    pub est: Seq<char>,
    pub total: Seq<char>,
    pub percent: Seq<char>,
}

impl View for Figures {
    type V = FiguresView;

    open spec fn view(&self) -> FiguresView {
        FiguresView { est: self.est@, total: self.total@, percent: self.percent@ }
    }
}

pub open spec fn figures(v: Seq<Figures>) -> Seq<FiguresView> {
    Seq::new(v.len(), |i: int| v[i]@)
}

/// `n` spaces.
pub open spec fn spaces(n: nat) -> Seq<char> {
    Seq::new(n, |i: int| ' ')
}

/// A line of the plan, indented.
pub open spec fn plan_line(pad: nat, t: Seq<char>) -> Seq<char> {
    spaces(pad) + t + "\n"@
}

pub open spec fn op_text(op: CmpOp) -> Seq<char> {
    match op {
        CmpOp::Gt => ">"@,
        CmpOp::Lt => "<"@,
        CmpOp::Ge => ">="@,
        CmpOp::Le => "<="@,
        CmpOp::Eq => "="@,
    }
}

pub open spec fn lit_text(l: LitView) -> Seq<char> {
    match l {
        LitView::Int(n) => dec_int(n as int),
        LitView::Str(s) => "'"@ + s + "'"@,
    }
}

pub open spec fn pred_text(s: ScanView, p: BoundPredView) -> Seq<char> {
    s.meta.fields[p.col_idx].name + op_text(p.op) + lit_text(p.lit)
}

/// Texts with a separator between them.
pub open spec fn joined(v: Seq<Seq<char>>, sep: Seq<char>) -> Seq<char>
    decreases v.len(),
{
    if v.len() == 0 {
        Seq::empty()
    } else if v.len() == 1 {
        v[0]
    } else {
        joined(v.drop_last(), sep) + sep + v.last()
    }
}

pub open spec fn desc_text(desc: bool) -> Seq<char> {
    if desc { " DESC"@ } else { Seq::empty() }
}

/// The line of the TopN or the sort, if there is one.
pub open spec fn top_line(order_by: Option<(usize, bool)>, limit: Option<usize>) -> Option<
    Seq<char>,
> {
    match limit {
        Some(n) => Some(
            "TopN(limit="@ + dec(n as nat) + (match order_by {
                Some((i, d)) => " by output#"@ + dec((i + 1) as nat) + desc_text(d),
                None => Seq::empty(),
            }) + ")"@,
        ),
        None => match order_by {
            Some((i, d)) => Some("Sort(output#"@ + dec((i + 1) as nat) + desc_text(d) + ")"@),
            None => None,
        },
    }
}

pub open spec fn join_line(j: JoinNode, scans: Seq<ScanView>, figs: Seq<FiguresView>) -> Seq<char> {
    let table = scans[j.build as int].table;
    let est = figs[j.build as int].est;
    "HashJoin["@ + (match j.strategy {
        JoinStrategy::Broadcast => "BROADCAST (build="@ + table + " est "@ + est
            + " rows < 4096 KB threshold)"@,
        JoinStrategy::Shuffle { partitions } => "SHUFFLE x"@ + dec(partitions as nat)
            + " via shared-storage scratch (build="@ + table + " est "@ + est
            + " rows > threshold)"@,
    }) + "]"@
}

pub open spec fn scan_line(s: ScanView, f: FiguresView) -> Seq<char> {
    "IcebergScan "@ + s.table + " cols["@ + joined(
        Seq::new(s.cols.len(), |i: int| s.cols[i].name),
        ","@,
    ) + "]"@ + (if s.preds.len() == 0 {
        Seq::empty()
    } else {
        " pred["@ + joined(
            Seq::new(s.preds.len(), |i: int| pred_text(s, s.preds[i])),
            " AND "@,
        ) + "]"@
    }) + " | "@ + dec(s.files.len()) + " files ("@ + dec(s.files_pruned as nat)
        + " pruned by manifest bounds), est "@ + f.est + "/"@ + f.total + " rows ("@ + f.percent
        + "% sel), late-materialized"@
}

/// The lines of scans, all at one depth.
pub open spec fn scan_lines(pad: nat, scans: Seq<ScanView>, figs: Seq<FiguresView>) -> Seq<char>
    decreases scans.len(),
{
    if scans.len() == 0 {
        Seq::empty()
    } else {
        scan_lines(pad, scans.drop_last(), figs) + plan_line(
            pad,
            scan_line(scans.last(), figs[scans.len() - 1]),
        )
    }
}

pub open spec fn agg_lines(pad: nat) -> Seq<char> {
    plan_line(pad, "FinalAggregate(merge partials)"@) + plan_line(
        pad + 2,
        "Exchange(partials -> coordinator)"@,
    ) + plan_line(pad + 4, "PartialAggregate(per node, per morsel)"@)
}

/// The plan in words, one operator to a line, each step down indented by two.
pub open spec fn explained(
    scans: Seq<ScanView>,
    join: Option<JoinNode>,
    order_by: Option<(usize, bool)>,
    limit: Option<usize>,
    agg: bool,
    figs: Seq<FiguresView>,
) -> Seq<char> {
    let top = top_line(order_by, limit);
    let p1: nat = if top is Some { 2 } else { 0 };
    let p2: nat = if agg { p1 + 6 } else { p1 };
    let p3: nat = if join is Some { p2 + 2 } else { p2 };
    (match top {
        Some(t) => plan_line(0, t),
        None => Seq::empty(),
    }) + (if agg { agg_lines(p1) } else { Seq::empty() }) + (match join {
        Some(j) => plan_line(p2, join_line(j, scans, figs)),
        None => Seq::empty(),
    }) + scan_lines(p3, scans, figs)
}

fn put_line(out: &mut String, pad: usize, t: &str)
    ensures
        final(out)@ == old(out)@ + plan_line(pad as nat, t@),
{
    let mut k: usize = 0;
    assert(out@ + spaces(0) =~= out@);
    while k < pad
        invariant
            k <= pad,
            out@ == old(out)@ + spaces(k as nat),
        decreases pad - k,
    {
        out.push(' ');
        k += 1;
        assert(out@ =~= old(out)@ + spaces(k as nat));
    }
    out.append(t);
    out.append("\n");
    assert(out@ =~= old(out)@ + plan_line(pad as nat, t@));
}

fn put_desc(out: &mut String, desc: bool)
    ensures
        final(out)@ == old(out)@ + desc_text(desc),
{
    if desc {
        out.append(" DESC");
    } else {
        assert(out@ + Seq::<char>::empty() =~= out@);
    }
}

fn top_text(order_by: Option<(usize, bool)>, limit: Option<usize>) -> (r: Option<String>)
    requires
        order_by matches Some((i, _)) ==> i < usize::MAX,
    ensures
        match top_line(order_by, limit) {
            None => r is None,
            Some(t) => r is Some && r->0@ == t,
        },
{
    match limit {
        Some(n) => {
            let mut s: String = "TopN(limit=".to_owned();
            push_dec(&mut s, n as u64);
            let ghost head = s@;
            match order_by {
                Some((i, d)) => {
                    s.append(" by output#");
                    push_dec(&mut s, (i + 1) as u64);
                    put_desc(&mut s, d);
                    assert(s@ =~= head + (" by output#"@ + dec((i + 1) as nat) + desc_text(d)));
                },
                None => {
                    assert(s@ =~= head + Seq::<char>::empty());
                },
            }
            s.append(")");
            Some(s)
        },
        None => match order_by {
            Some((i, d)) => {
                let mut s: String = "Sort(output#".to_owned();
                push_dec(&mut s, (i + 1) as u64);
                put_desc(&mut s, d);
                s.append(")");
                Some(s)
            },
            None => None,
        },
    }
}

fn join_text(j: &JoinNode, scans: &Vec<ScanNode>, figs: &Vec<Figures>) -> (r: String)
    requires
        j.build < scans@.len(),
        figs@.len() == scans@.len(),
    ensures
        r@ == join_line(*j, scan_views(scans@), figures(figs@)),
{
    let table: &str = scans[j.build].table.as_str();
    let est: &str = figs[j.build].est.as_str();
    assert(scan_views(scans@)[j.build as int] == scans@[j.build as int]@);
    assert(figures(figs@)[j.build as int] == figs@[j.build as int]@);
    let mut s: String = String::new();
    match j.strategy {
        JoinStrategy::Broadcast => {
            s.append("BROADCAST (build=");
            s.append(table);
            s.append(" est ");
            s.append(est);
            s.append(" rows < 4096 KB threshold)");
            assert(s@ =~= "BROADCAST (build="@ + table@ + " est "@ + est@
                + " rows < 4096 KB threshold)"@);
        },
        JoinStrategy::Shuffle { partitions } => {
            s.append("SHUFFLE x");
            push_dec(&mut s, partitions as u64);
            s.append(" via shared-storage scratch (build=");
            s.append(table);
            s.append(" est ");
            s.append(est);
            s.append(" rows > threshold)");
            assert(s@ =~= "SHUFFLE x"@ + dec(partitions as nat)
                + " via shared-storage scratch (build="@ + table@ + " est "@ + est@
                + " rows > threshold)"@);
        },
    }
    let a: String = join2("HashJoin[", s.as_str());
    join2(a.as_str(), "]")
}

/// Appends a separator and a text, without the separator at the start.
fn put_joined(out: &mut String, first: bool, sep: &str, t: &str)
    ensures
        final(out)@ == old(out)@ + (if first { Seq::empty() } else { sep@ }) + t@,
{
    if !first {
        out.append(sep);
    } else {
        assert(out@ + Seq::<char>::empty() =~= out@);
    }
    out.append(t);
}

fn cols_text(s: &ScanNode) -> (r: String)
    ensures
        r@ == joined(Seq::new(s@.cols.len(), |i: int| s@.cols[i].name), ","@),
{
    let ghost names = Seq::new(s@.cols.len(), |i: int| s@.cols[i].name);
    let mut out: String = String::new();
    let mut k: usize = 0;
    while k < s.cols.len()
        invariant
            k <= s.cols@.len(),
            names == Seq::new(s@.cols.len(), |i: int| s@.cols[i].name),
            out@ == joined(names.take(k as int), ","@),
        decreases s.cols@.len() - k,
    {
        proof {
            assert(names.take(k + 1).drop_last() =~= names.take(k as int));
            assert(names.take(k + 1).last() == s.cols@[k as int].1@);
        }
        put_joined(&mut out, k == 0, ",", s.cols[k].1.as_str());
        assert(out@ =~= joined(names.take(k + 1), ","@));
        k += 1;
    }
    assert(names.take(k as int) =~= names);
    out
}

fn one_pred(s: &ScanNode, k: usize) -> (r: String)
    requires
        k < s.preds@.len(),
        s.preds@[k as int].col_idx < s.meta.fields@.len(),
    ensures
        r@ == pred_text(s@, s@.preds[k as int]),
{
    let p: &BoundPred = &s.preds[k];
    assert(s@.preds[k as int] == p@);
    let mut t: String = s.meta.fields[p.col_idx].name.clone();
    let op: &str = match p.op {
        CmpOp::Gt => ">",
        CmpOp::Lt => "<",
        CmpOp::Ge => ">=",
        CmpOp::Le => "<=",
        CmpOp::Eq => "=",
    };
    t.append(op);
    let ghost head = t@;
    match &p.lit {
        Literal::Int(n) => {
            push_dec_int(&mut t, *n);
        },
        Literal::Str(v) => {
            t.append("'");
            t.append(v.as_str());
            t.append("'");
            assert(t@ =~= head + ("'"@ + v@ + "'"@));
        },
    }
    t
}

fn preds_text(s: &ScanNode) -> (r: String)
    requires
        forall|i: int|
            0 <= i < s.preds@.len() ==> (#[trigger] s.preds@[i]).col_idx < s.meta.fields@.len(),
    ensures
        r@ == joined(
            Seq::new(s@.preds.len(), |i: int| pred_text(s@, s@.preds[i])),
            " AND "@,
        ),
{
    let ghost texts = Seq::new(s@.preds.len(), |i: int| pred_text(s@, s@.preds[i]));
    let mut out: String = String::new();
    let mut k: usize = 0;
    while k < s.preds.len()
        invariant
            k <= s.preds@.len(),
            forall|i: int|
                0 <= i < s.preds@.len() ==> (#[trigger] s.preds@[i]).col_idx < s.meta.fields@.len(),
            texts == Seq::new(s@.preds.len(), |i: int| pred_text(s@, s@.preds[i])),
            out@ == joined(texts.take(k as int), " AND "@),
        decreases s.preds@.len() - k,
    {
        proof {
            assert(texts.take(k + 1).drop_last() =~= texts.take(k as int));
        }
        let t: String = one_pred(s, k);
        put_joined(&mut out, k == 0, " AND ", t.as_str());
        assert(out@ =~= joined(texts.take(k + 1), " AND "@));
        k += 1;
    }
    assert(texts.take(k as int) =~= texts);
    out
}

fn scan_text(s: &ScanNode, f: &Figures) -> (r: String)
    requires
        forall|i: int|
            0 <= i < s.preds@.len() ==> (#[trigger] s.preds@[i]).col_idx < s.meta.fields@.len(),
    ensures
        r@ == scan_line(s@, f@),
{
    let mut t: String = "IcebergScan ".to_owned();
    t.append(s.table.as_str());
    t.append(" cols[");
    let cols: String = cols_text(s);
    t.append(cols.as_str());
    t.append("]");
    let ghost head = t@;
    if s.preds.len() > 0 {
        let p: String = preds_text(s);
        t.append(" pred[");
        t.append(p.as_str());
        t.append("]");
        assert(t@ =~= head + (" pred["@ + p@ + "]"@));
    } else {
        assert(t@ =~= head + Seq::<char>::empty());
    }
    t.append(" | ");
    push_dec(&mut t, s.files.len() as u64);
    t.append(" files (");
    push_dec(&mut t, s.files_pruned as u64);
    t.append(" pruned by manifest bounds), est ");
    t.append(f.est.as_str());
    t.append("/");
    t.append(f.total.as_str());
    t.append(" rows (");
    t.append(f.percent.as_str());
    t.append("% sel), late-materialized");
    t
}

/// Shows a plan in words. Row counts and percentages come in as texts.
pub fn explain(p: &PhysicalPlan, figs: &Vec<Figures>) -> (r: String)
    requires
        figs@.len() == p.scans@.len(),
        p.join matches Some(j) ==> j.build < p.scans@.len(),
        p.order_by matches Some((i, _)) ==> i < usize::MAX,
        forall|k: int, i: int|
            #![trigger p.scans@[k].preds@[i]]
            0 <= k < p.scans@.len() && 0 <= i < p.scans@[k].preds@.len()
                ==> p.scans@[k].preds@[i].col_idx < p.scans@[k].meta.fields@.len(),
    ensures
        r@ == explained(
            scan_views(p.scans@),
            p.join,
            p.order_by,
            p.limit,
            p.two_phase_agg,
            figures(figs@),
        ),
{
    let ghost sv = scan_views(p.scans@);
    let ghost fv = figures(figs@);
    let mut s: String = String::new();
    let mut pad: usize = 0;
    let ghost top = top_line(p.order_by, p.limit);
    if let Some(t) = top_text(p.order_by, p.limit) {
        put_line(&mut s, 0, t.as_str());
        pad = 2;
        assert(s@ =~= plan_line(0, t@));
    }
    let ghost a1 = s@;
    let ghost p1 = pad as nat;
    if p.two_phase_agg {
        put_line(&mut s, pad, "FinalAggregate(merge partials)");
        put_line(&mut s, pad + 2, "Exchange(partials -> coordinator)");
        put_line(&mut s, pad + 4, "PartialAggregate(per node, per morsel)");
        assert(s@ =~= a1 + agg_lines(p1));
        pad = pad + 6;
    } else {
        assert(s@ =~= a1 + Seq::<char>::empty());
    }
    let ghost a2 = s@;
    if let Some(j) = &p.join {
        let t: String = join_text(j, &p.scans, figs);
        put_line(&mut s, pad, t.as_str());
        pad = pad + 2;
    } else {
        assert(s@ =~= a2 + Seq::<char>::empty());
    }
    let ghost a3 = s@;
    let mut k: usize = 0;
    assert(sv.take(0) =~= Seq::<ScanView>::empty());
    assert(s@ =~= a3 + scan_lines(pad as nat, sv.take(0), fv));
    while k < p.scans.len()
        invariant
            k <= p.scans@.len(),
            sv == scan_views(p.scans@),
            fv == figures(figs@),
            figs@.len() == p.scans@.len(),
            forall|k: int, i: int|
                #![trigger p.scans@[k].preds@[i]]
                0 <= k < p.scans@.len() && 0 <= i < p.scans@[k].preds@.len()
                    ==> p.scans@[k].preds@[i].col_idx < p.scans@[k].meta.fields@.len(),
            s@ == a3 + scan_lines(pad as nat, sv.take(k as int), fv),
        decreases p.scans@.len() - k,
    {
        proof {
            assert(sv.take(k + 1).drop_last() =~= sv.take(k as int));
            assert(sv.take(k + 1).last() == p.scans@[k as int]@);
            assert(fv[k as int] == figs@[k as int]@);
        }
        let t: String = scan_text(&p.scans[k], &figs[k]);
        put_line(&mut s, pad, t.as_str());
        assert(s@ =~= a3 + scan_lines(pad as nat, sv.take(k + 1), fv));
        k += 1;
    }
    assert(sv.take(k as int) =~= sv);
    s
}

} // verus!
