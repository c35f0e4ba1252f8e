//! Bulk loading: rows, their split into statements under the bound-parameter
//! ceiling, and the transaction that carries one table's statements.
use vstd::prelude::*;

use vstd::math::min;

use crate::catalog::{System, Waypoint};

verus! {

/// Most positional parameters one statement may carry.
pub const BIND_LIMIT: usize = 65535;

/// Parameters bound per row of `systems`:
/// symbol, sector_symbol, type, x, y, factions.
pub const SYSTEM_COLUMNS: usize = 6;

/// Parameters bound per row of `waypoints`:
/// symbol, type, system_symbol, x, y (the two flags stay unset).
pub const WAYPOINT_COLUMNS: usize = 5;

/// One row of `waypoints`.
#[derive(Clone, Debug, PartialEq, Eq)]
pub struct WaypointRow {
    pub symbol: String,
    pub kind: String,
    pub system_symbol: String,
    pub x: i32,
    pub y: i32,
}

/// Rows per statement: as many as fit under `bind_limit` parameters.
pub open spec fn rows_per_chunk(columns: nat, bind_limit: nat) -> nat {
    (bind_limit as int / columns as int) as nat
}

/// `ceil(n / size)`.
pub open spec fn chunk_count(n: nat, size: nat) -> nat {
    ((n + size - 1) / (size as int)) as nat
}

/// Chunk `i` of `n` rows cut into pieces of `size`: rows `[i*size, min((i+1)*size, n))`.
pub open spec fn chunk_at(n: nat, size: nat, i: nat) -> (usize, usize) {
    ((i * size) as usize, min(((i + 1) * size) as int, n as int) as usize)
}

/// The row of `w`, which belongs to the system `system_symbol`.
pub open spec fn row_of(w: Waypoint, system_symbol: String) -> WaypointRow {
    WaypointRow { symbol: w.symbol, kind: w.kind, system_symbol, x: w.x, y: w.y }
}

/// The rows of one system's waypoints, in order.
pub open spec fn system_rows(s: System) -> Seq<WaypointRow> {
    s.waypoints@.map_values(|w: Waypoint| row_of(w, s.symbol))
}

/// The rows of all systems' waypoints, system by system.
pub open spec fn all_rows(systems: Seq<System>) -> Seq<WaypointRow>
    decreases systems.len(),
{
    if systems.len() == 0 {
        Seq::empty()
    } else {
        all_rows(systems.drop_last()) + system_rows(systems.last())
    }
}

/// Waypoints over all systems.
pub open spec fn waypoint_count(systems: Seq<System>) -> nat
    decreases systems.len(),
{
    if systems.len() == 0 {
        0
    } else {
        waypoint_count(systems.drop_last()) + systems.last().waypoints@.len()
    }
}

/// Rows covered by a list of ranges.
pub open spec fn rows_covered(ranges: Seq<(usize, usize)>) -> int
    decreases ranges.len(),
{
    if ranges.len() == 0 {
        0
    } else {
        rows_covered(ranges.drop_last()) + ranges.last().1 - ranges.last().0
    }
}

/// The waypoint rows are exactly one per waypoint across all systems; a
/// system without waypoints contributes none.
pub proof fn lemma_waypoint_rows_exact(systems: Seq<System>)
    ensures
        all_rows(systems).len() == waypoint_count(systems),
    decreases systems.len(),
{
    if systems.len() > 0 {
        lemma_waypoint_rows_exact(systems.drop_last());
    }
}

/// Cutting `n` rows into pieces of `size`: each piece is non-empty and
/// holds at most `size` rows, the pieces follow each other without gap or
/// overlap from row 0 to row `n`, and together they hold exactly `n` rows.
pub proof fn lemma_chunks_partition(n: nat, size: nat)
    requires
        size >= 1,
        n <= usize::MAX,
    ensures
        forall|i: nat| i < chunk_count(n, size) ==> {
            &&& (#[trigger] chunk_at(n, size, i)).0 < chunk_at(n, size, i).1
            &&& chunk_at(n, size, i).1 - chunk_at(n, size, i).0 <= size
        },
        forall|i: nat| i + 1 < chunk_count(n, size) ==> (#[trigger] chunk_at(n, size, i)).1
            == chunk_at(n, size, i + 1).0,
        chunk_count(n, size) > 0 ==> chunk_at(n, size, 0).0 == 0,
        chunk_count(n, size) > 0 ==> chunk_at(n, size, (chunk_count(n, size) - 1) as nat).1 == n,
        rows_covered(Seq::new(chunk_count(n, size), |i: int| chunk_at(n, size, i as nat))) == n,
{
    let m = chunk_count(n, size);
    lemma_chunk_count_bounds(n, size);
    assert forall|i: nat| i < m implies {
        &&& (#[trigger] chunk_at(n, size, i)).0 < chunk_at(n, size, i).1
        &&& chunk_at(n, size, i).1 - chunk_at(n, size, i).0 <= size
    } by {
        lemma_chunk_start_below(n, size, i);
    }
    assert forall|i: nat| i + 1 < m implies (#[trigger] chunk_at(n, size, i)).1 == chunk_at(
        n,
        size,
        i + 1,
    ).0 by {
        lemma_chunk_start_below(n, size, i + 1);
        assert((i + 1) * size == i * size + size) by (nonlinear_arith);
    }
    if m > 0 {
        lemma_chunk_start_below(n, size, (m - 1) as nat);
        assert(m * size == (m - 1) * size + size) by (nonlinear_arith)
            requires
                m >= 1,
        ;
    }
    lemma_rows_covered_prefix(n, size, m);
}

pub(crate) proof fn lemma_chunk_count_bounds(n: nat, size: nat)
    requires
        size >= 1,
    ensures
        chunk_count(n, size) * size >= n,
        n >= 1 ==> (chunk_count(n, size) - 1) * size < n,
        n == 0 ==> chunk_count(n, size) == 0,
{
    let m = chunk_count(n, size);
    let q = (n + size - 1) / (size as int);
    let r = (n + size - 1) % (size as int);
    assert(n + size - 1 == size * q + r && 0 <= r < size) by (nonlinear_arith)
        requires
            size >= 1,
            q == (n + size - 1) / (size as int),
            r == (n + size - 1) % (size as int),
    ;
    assert(m * size >= n) by (nonlinear_arith)
        requires
            m == q,
            n + size - 1 == size * q + r,
            r < size,
    ;
    assert(n >= 1 ==> (m - 1) * size < n) by (nonlinear_arith)
        requires
            m == q,
            n + size - 1 == size * q + r,
            0 <= r,
    ;
    if n == 0 {
        assert(q == 0) by (nonlinear_arith)
            requires
                size - 1 == size * q + r,
                0 <= r < size,
                size >= 1,
        ;
    }
}

proof fn lemma_chunk_start_below(n: nat, size: nat, i: nat)
    requires
        size >= 1,
        i < chunk_count(n, size),
        n <= usize::MAX,
    ensures
        i * size < n,
        (i + 1) * size == i * size + size,
        chunk_at(n, size, i).0 == i * size,
        chunk_at(n, size, i).1 == min(((i + 1) * size) as int, n as int),
{
    lemma_chunk_count_bounds(n, size);
    let m = chunk_count(n, size);
    assert(i * size < n) by (nonlinear_arith)
        requires
            i < m,
            n >= 1 ==> (m - 1) * size < n,
            n == 0 ==> m == 0,
            size >= 1,
    ;
    assert((i + 1) * size == i * size + size) by (nonlinear_arith);
}

proof fn lemma_rows_covered_prefix(n: nat, size: nat, k: nat)
    requires
        size >= 1,
        n <= usize::MAX,
        k <= chunk_count(n, size),
    ensures
        rows_covered(Seq::new(k, |i: int| chunk_at(n, size, i as nat))) == min((k * size) as int, n as int),
    decreases k,
{
    let s = Seq::new(k, |i: int| chunk_at(n, size, i as nat));
    if k == 0 {
    } else {
        let j = (k - 1) as nat;
        lemma_rows_covered_prefix(n, size, j);
        assert(s.drop_last() =~= Seq::new(j, |i: int| chunk_at(n, size, i as nat)));
        lemma_chunk_start_below(n, size, j);
    }
}

/// Splits `n` rows into the ranges of rows that successive statements
/// insert: `ceil(n / size)` ranges, range `i` being rows
/// `[i*size, min((i+1)*size, n))`.
pub fn chunk_ranges(n: usize, size: usize) -> (r: Vec<(usize, usize)>)
    requires
        size >= 1,
    ensures
        r@.len() == chunk_count(n as nat, size as nat),
        forall|i: int| 0 <= i < r@.len() ==> r@[i] == chunk_at(n as nat, size as nat, i as nat),
{
    proof {
        lemma_chunk_count_bounds(n as nat, size as nat);
    }
    let mut r: Vec<(usize, usize)> = Vec::new();
    let mut start: usize = 0;
    assert(r@.len() * size == 0) by (nonlinear_arith)
        requires
            r@.len() == 0,
    ;
    while start < n
        invariant
            size >= 1,
            start <= n,
            start == min(r@.len() * size, n as int),
            r@.len() <= chunk_count(n as nat, size as nat),
            start < n ==> r@.len() < chunk_count(n as nat, size as nat),
            forall|i: int| 0 <= i < r@.len() ==> r@[i] == chunk_at(n as nat, size as nat, i as nat),
        decreases n - start,
    {
        let k = r.len();
        proof {
            lemma_chunk_start_below(n as nat, size as nat, k as nat);
        }
        let end: usize = if n - start <= size { n } else { start + size };
        r.push((start, end));
        proof {
            lemma_chunk_count_bounds(n as nat, size as nat);
            let m = chunk_count(n as nat, size as nat);
            if end < n {
                assert((k + 1) * size < n);
                assert(k + 1 < m) by (nonlinear_arith)
                    requires
                        (k + 1) * size < n,
                        m * size >= n,
                        size >= 1,
                ;
            }
        }
        start = end;
    }
    proof {
        lemma_chunk_count_bounds(n as nat, size as nat);
        let m = chunk_count(n as nat, size as nat);
        let k = r@.len();
        if k < m {
            lemma_chunk_start_below(n as nat, size as nat, k as nat);
        }
    }
    r
}

/// The rows of `waypoints`, system by system and, within a system, in the
/// order of its waypoints. Systems without waypoints give no rows.
pub fn waypoint_rows(systems: &Vec<System>) -> (r: Vec<WaypointRow>)
    ensures
        r@ == all_rows(systems@),
{
    let mut r: Vec<WaypointRow> = Vec::new();
    let mut i: usize = 0;
    while i < systems.len()
        invariant
            i <= systems@.len(),
            r@ == all_rows(systems@.subrange(0, i as int)),
        decreases systems@.len() - i,
    {
        let s = &systems[i];
        let ghost before = r@;
        let mut j: usize = 0;
        while j < s.waypoints.len()
            invariant
                j <= s.waypoints@.len(),
                r@ == before + system_rows(*s).subrange(0, j as int),
            decreases s.waypoints@.len() - j,
        {
            let w = &s.waypoints[j];
            r.push(
                WaypointRow {
                    symbol: w.symbol.clone(),
                    kind: w.kind.clone(),
                    system_symbol: s.symbol.clone(),
                    x: w.x,
                    y: w.y,
                },
            );
            assert(system_rows(*s).subrange(0, j + 1) =~= system_rows(*s).subrange(0, j as int).push(
                row_of(*w, s.symbol),
            ));
            j = j + 1;
        }
        assert(system_rows(*s).subrange(0, j as int) =~= system_rows(*s));
        assert(systems@.subrange(0, i + 1).drop_last() =~= systems@.subrange(0, i as int));
        i = i + 1;
    }
    assert(systems@.subrange(0, i as int) =~= systems@);
    r
}

/// Rows per statement for `columns` parameters per row, under `bind_limit`.
pub fn chunk_rows(columns: usize, bind_limit: usize) -> (r: usize)
    requires
        columns >= 1,
    ensures
        r == rows_per_chunk(columns as nat, bind_limit as nat),
        r * columns <= bind_limit,
        (r + 1) * columns > bind_limit,
{
    let r = bind_limit / columns;
    assert(r * columns <= bind_limit && (r + 1) * columns > bind_limit) by (nonlinear_arith)
        requires
            columns >= 1,
            r == bind_limit / columns,
    {
        assert(bind_limit == columns * (bind_limit / columns) + bind_limit % columns);
        assert(0 <= bind_limit % columns < columns);
    }
    r
}

/// No statement carries more parameters than the ceiling, and an input of
/// more rows than one statement takes goes out in several statements.
pub proof fn lemma_statements_within_limit(n: nat, columns: nat, bind_limit: nat)
    requires
        columns >= 1,
        bind_limit >= columns,
        n <= usize::MAX,
    ensures
        rows_per_chunk(columns, bind_limit) >= 1,
        forall|i: nat| i < chunk_count(n, rows_per_chunk(columns, bind_limit)) ==>
            (#[trigger] chunk_at(n, rows_per_chunk(columns, bind_limit), i)).1 - chunk_at(
                n,
                rows_per_chunk(columns, bind_limit),
                i,
            ).0 >= 1 && (chunk_at(n, rows_per_chunk(columns, bind_limit), i).1 - chunk_at(
                n,
                rows_per_chunk(columns, bind_limit),
                i,
            ).0) * columns <= bind_limit,
        n > rows_per_chunk(columns, bind_limit) ==> chunk_count(n, rows_per_chunk(columns, bind_limit))
            >= 2,
{
    let size = rows_per_chunk(columns, bind_limit);
    assert(size >= 1 && size * columns <= bind_limit) by (nonlinear_arith)
        requires
            columns >= 1,
            bind_limit >= columns,
            size == bind_limit as int / columns as int,
    {
        assert(bind_limit == columns * ((bind_limit as int) / (columns as int)) + (bind_limit as int) % (columns as int));
        assert(0 <= (bind_limit as int) % (columns as int) < columns);
    }
    lemma_chunks_partition(n, size);
    assert forall|i: nat| i < chunk_count(n, size) implies (#[trigger] chunk_at(n, size, i)).1
        - chunk_at(n, size, i).0 >= 1 && (chunk_at(n, size, i).1 - chunk_at(n, size, i).0) * columns
        <= bind_limit by {
        let len = chunk_at(n, size, i).1 - chunk_at(n, size, i).0;
        assert(len * columns <= bind_limit) by (nonlinear_arith)
            requires
                len <= size,
                size * columns <= bind_limit,
                columns >= 1,
        ;
    }
    lemma_chunk_count_bounds(n, size);
    if n > size {
        let m = chunk_count(n, size);
        assert(m >= 2) by (nonlinear_arith)
            requires
                m * size >= n,
                n > size,
                size >= 1,
        ;
    }
}

/// Where a table load stands.
#[derive(PartialEq, Eq, Structural, Clone, Copy, Debug)]
pub enum LoadPhase {
    /// Statements are going out inside the open transaction.
    Inserting,
    /// Every statement and the commit succeeded.
    Committed,
    /// A statement or the commit failed: nothing may be committed.
    Aborted,
}

/// What the table load asks for next.
#[derive(PartialEq, Eq, Structural, Clone, Copy, Debug)]
pub enum LoadStep {
    /// Insert rows `[start, end)` in one statement, inside the transaction.
    Insert(usize, usize),
    /// Every statement went through: commit the transaction.
    Commit,
    /// Something failed: roll the transaction back.
    Rollback,
    /// The rows are committed; nothing is left to do.
    Finished,
}

/// Abstract state of a table load.
pub struct LoadView {
    /// Row ranges, one per statement, in input order.
    pub ranges: Seq<(usize, usize)>,
    /// Statements that succeeded so far.
    pub next: nat,
    pub phase: LoadPhase,
}

pub open spec fn load_start(ranges: Seq<(usize, usize)>) -> LoadView {
    LoadView { ranges, next: 0, phase: LoadPhase::Inserting }
}

/// The step that a load in state `v` asks for.
pub open spec fn load_action(v: LoadView) -> LoadStep {
    match v.phase {
        LoadPhase::Inserting => if v.next < v.ranges.len() {
            LoadStep::Insert(v.ranges[v.next as int].0, v.ranges[v.next as int].1)
        } else {
            LoadStep::Commit
        },
        LoadPhase::Committed => LoadStep::Finished,
        LoadPhase::Aborted => LoadStep::Rollback,
    }
}

/// The state after the step asked for came back with `ok`.
pub open spec fn load_record(v: LoadView, ok: bool) -> LoadView {
    match v.phase {
        LoadPhase::Inserting => if v.next < v.ranges.len() {
            if ok {
                LoadView { ranges: v.ranges, next: v.next + 1, phase: LoadPhase::Inserting }
            } else {
                LoadView { ranges: v.ranges, next: v.next, phase: LoadPhase::Aborted }
            }
        } else {
            LoadView {
                ranges: v.ranges,
                next: v.next,
                phase: if ok { LoadPhase::Committed } else { LoadPhase::Aborted },
            }
        },
        _ => v,
    }
}

/// A load after the outcomes `oks`, one per step taken.
pub open spec fn load_run(v: LoadView, oks: Seq<bool>) -> LoadView
    decreases oks.len(),
{
    if oks.len() == 0 {
        v
    } else {
        load_record(load_run(v, oks.drop_last()), oks.last())
    }
}

proof fn lemma_load_run_shape(ranges: Seq<(usize, usize)>, oks: Seq<bool>)
    ensures
        load_run(load_start(ranges), oks).ranges == ranges,
        (forall|i: int| 0 <= i < oks.len() && i <= ranges.len() ==> oks[i]) ==> {
            &&& oks.len() <= ranges.len() ==> load_run(load_start(ranges), oks).phase
                == LoadPhase::Inserting && load_run(load_start(ranges), oks).next == oks.len()
            &&& oks.len() > ranges.len() ==> load_run(load_start(ranges), oks).phase
                == LoadPhase::Committed
        },
        !(forall|i: int| 0 <= i < oks.len() && i <= ranges.len() ==> oks[i]) ==> load_run(
            load_start(ranges),
            oks,
        ).phase == LoadPhase::Aborted,
    decreases oks.len(),
{
    if oks.len() > 0 {
        let prev = oks.drop_last();
        lemma_load_run_shape(ranges, prev);
        assert forall|i: int| 0 <= i < prev.len() implies prev[i] == oks[i] by {}
        if !(forall|i: int| 0 <= i < prev.len() && i <= ranges.len() ==> prev[i]) {
            let i = choose|i: int| !(0 <= i < prev.len() && i <= ranges.len() ==> prev[i]);
            assert(!(0 <= i < oks.len() && i <= ranges.len() ==> oks[i]));
        }
    }
}

/// A table load commits exactly when every one of its statements and then
/// the commit itself succeeded: a failure on any statement leaves the
/// transaction uncommitted, and it is then rolled back.
pub proof fn lemma_load_atomic(ranges: Seq<(usize, usize)>, oks: Seq<bool>)
    ensures
        load_run(load_start(ranges), oks).phase == LoadPhase::Committed <==> (oks.len()
            > ranges.len() && forall|i: int| 0 <= i <= ranges.len() ==> oks[i]),
        (exists|i: int| 0 <= i < oks.len() && i < ranges.len() && !oks[i]) ==> load_action(
            load_run(load_start(ranges), oks),
        ) == LoadStep::Rollback,
{
    lemma_load_run_shape(ranges, oks);
}

/// While every statement succeeds, they go out in input order, one per
/// range, and the commit follows the last.
pub proof fn lemma_load_in_order(ranges: Seq<(usize, usize)>, oks: Seq<bool>)
    requires
        oks.len() <= ranges.len(),
        forall|i: int| 0 <= i < oks.len() ==> oks[i],
    ensures
        oks.len() < ranges.len() ==> load_action(load_run(load_start(ranges), oks)) == LoadStep::Insert(
            ranges[oks.len() as int].0,
            ranges[oks.len() as int].1,
        ),
        oks.len() == ranges.len() ==> load_action(load_run(load_start(ranges), oks))
            == LoadStep::Commit,
{
    lemma_load_run_shape(ranges, oks);
}

/// A committed load of `n` rows has run one successful statement per range,
/// and those ranges hold exactly the `n` input rows: what the table holds
/// afterwards is one row per input row.
pub proof fn lemma_committed_rows_exact(n: nat, columns: nat, bind_limit: nat, oks: Seq<bool>)
    requires
        columns >= 1,
        bind_limit >= columns,
        n <= usize::MAX,
        load_run(
            load_start(
                Seq::new(
                    chunk_count(n, rows_per_chunk(columns, bind_limit)),
                    |i: int| chunk_at(n, rows_per_chunk(columns, bind_limit), i as nat),
                ),
            ),
            oks,
        ).phase == LoadPhase::Committed,
    ensures
        oks.len() > chunk_count(n, rows_per_chunk(columns, bind_limit)),
        forall|i: int| 0 <= i < chunk_count(n, rows_per_chunk(columns, bind_limit)) ==> oks[i],
        rows_covered(
            Seq::new(
                chunk_count(n, rows_per_chunk(columns, bind_limit)),
                |i: int| chunk_at(n, rows_per_chunk(columns, bind_limit), i as nat),
            ),
        ) == n,
{
    let size = rows_per_chunk(columns, bind_limit);
    let ranges = Seq::new(chunk_count(n, size), |i: int| chunk_at(n, size, i as nat));
    lemma_statements_within_limit(n, columns, bind_limit);
    lemma_chunks_partition(n, size);
    lemma_load_atomic(ranges, oks);
}

/// The load of one table: the statements of its rows inside one
/// transaction.
pub struct TableLoad {
    ranges: Vec<(usize, usize)>,
    next: usize,
    phase: LoadPhase,
}

impl View for TableLoad {
    type V = LoadView;

    closed spec fn view(&self) -> LoadView {
        LoadView { ranges: self.ranges@, next: self.next as nat, phase: self.phase }
    }
}

impl TableLoad {
    pub open spec fn wf(&self) -> bool {
        self@.next <= self@.ranges.len()
    }

    /// A load of `rows` rows of `columns` parameters each, cut so that no
    /// statement binds more than `bind_limit` parameters. `None` when not even
    /// one row fits in a statement.
    pub fn new(rows: usize, columns: usize, bind_limit: usize) -> (r: Option<TableLoad>)
        ensures
            r is Some <==> (columns >= 1 && bind_limit >= columns),
            r matches Some(t) ==> {
                let size = rows_per_chunk(columns as nat, bind_limit as nat);
                &&& t.wf()
                &&& t@ == load_start(
                    Seq::new(chunk_count(rows as nat, size), |i: int| chunk_at(rows as nat, size, i as nat)),
                )
            },
    {
        if columns == 0 || bind_limit < columns {
            None
        } else {
            let size = chunk_rows(columns, bind_limit);
            assert(size >= 1) by (nonlinear_arith)
                requires
                    (size + 1) * columns > bind_limit,
                    bind_limit >= columns,
            ;
            let ranges = chunk_ranges(rows, size);
            let t = TableLoad { ranges, next: 0, phase: LoadPhase::Inserting };
            assert(t@.ranges =~= Seq::new(
                chunk_count(rows as nat, size as nat),
                |i: int| chunk_at(rows as nat, size as nat, i as nat),
            ));
            Some(t)
        }
    }

    /// The step to take next.
    pub fn next_step(&self) -> (r: LoadStep)
        requires
            self.wf(),
        ensures
            r == load_action(self@),
    {
        match self.phase {
            LoadPhase::Inserting => if self.next < self.ranges.len() {
                let (start, end) = self.ranges[self.next];
                LoadStep::Insert(start, end)
            } else {
                LoadStep::Commit
            },
            LoadPhase::Committed => LoadStep::Finished,
            LoadPhase::Aborted => LoadStep::Rollback,
        }
    }

    /// Records whether the step just taken succeeded.
    pub fn record(&mut self, ok: bool)
        requires
            old(self).wf(),
        ensures
            final(self).wf(),
            final(self)@ == load_record(old(self)@, ok),
    {
        if self.phase == LoadPhase::Inserting {
            if self.next < self.ranges.len() {
                if ok {
                    self.next = self.next + 1;
                } else {
                    self.phase = LoadPhase::Aborted;
                }
            } else {
                self.phase = if ok { LoadPhase::Committed } else { LoadPhase::Aborted };
            }
        }
    }

    /// How many statements the load takes.
    pub fn statement_count(&self) -> (r: usize)
        ensures
            r == self@.ranges.len(),
    {
        self.ranges.len()
    }
}

} // verus!
