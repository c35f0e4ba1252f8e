//! Deciding whether the local cache must be rebuilt, and the stages of a
//! rebuild, each taken on the outcome of the one before.
use vstd::prelude::*;

verus! {

/// A stage of the bootstrap.
#[derive(PartialEq, Eq, Structural, Clone, Copy, Debug)]
pub enum Stage {
    /// Fetch the whole catalog, once. No table is touched before it is in.
    FetchCatalog,
    /// Drop both tables, in one transaction, so that until both are rebuilt
    /// the cache is missing and a later run starts over.
    ClearTables,
    /// Create `systems` and load the fetched systems, in one transaction.
    RebuildSystems,
    /// Create `waypoints` and load the fetched waypoints, in one transaction.
    RebuildWaypoints,
    /// Both tables are in place; nothing is left to do.
    Ready,
    /// The bootstrap failed; nothing is left to do, and the error goes to the
    /// caller.
    Failed,
}

/// The first stage, given which tables exist: none to run when both do,
/// else a full rebuild of both from one fresh fetch, even where one exists.
pub open spec fn first_stage_of(systems_present: bool, waypoints_present: bool) -> Stage {
    if systems_present && waypoints_present {
        Stage::Ready
    } else {
        Stage::FetchCatalog
    }
}

/// The stage after `st` came back with `ok`: the next one on success, and
/// the end, failed, on any failure.
pub open spec fn next_stage_of(st: Stage, ok: bool) -> Stage {
    match st {
        Stage::FetchCatalog => if ok { Stage::ClearTables } else { Stage::Failed },
        Stage::ClearTables => if ok { Stage::RebuildSystems } else { Stage::Failed },
        Stage::RebuildSystems => if ok { Stage::RebuildWaypoints } else { Stage::Failed },
        Stage::RebuildWaypoints => if ok { Stage::Ready } else { Stage::Failed },
        Stage::Ready => Stage::Ready,
        Stage::Failed => Stage::Failed,
    }
}

/// Which tables exist after `st` came back with `ok`. Each stage that
/// writes runs in one transaction, so a failed one leaves the tables as
/// they were.
pub open spec fn tables_after(st: Stage, ok: bool, tables: (bool, bool)) -> (bool, bool) {
    match st {
        Stage::ClearTables => if ok { (false, false) } else { tables },
        Stage::RebuildSystems => if ok { (true, tables.1) } else { tables },
        Stage::RebuildWaypoints => if ok { (tables.0, true) } else { tables },
        _ => tables,
    }
}

/// Stage and tables after the outcomes `oks`, one per stage run.
pub open spec fn run_stages(st: Stage, tables: (bool, bool), oks: Seq<bool>) -> (Stage, (bool, bool))
    decreases oks.len(),
{
    if oks.len() == 0 {
        (st, tables)
    } else {
        run_stages(next_stage_of(st, oks[0]), tables_after(st, oks[0], tables), oks.drop_first())
    }
}

/// Whether a stage has nothing left to run.
pub open spec fn is_final(st: Stage) -> bool {
    st == Stage::Ready || st == Stage::Failed
}

proof fn lemma_final_stays(st: Stage, tables: (bool, bool), oks: Seq<bool>)
    requires
        is_final(st),
    ensures
        run_stages(st, tables, oks) == (st, tables),
    decreases oks.len(),
{
    if oks.len() > 0 {
        lemma_final_stays(st, tables, oks.drop_first());
    }
}

/// Bootstrapping twice with nothing else in between: the first run fetches
/// once and rebuilds both tables, and the second finds them in place and
/// has no stage to run: no fetch and no write.
pub proof fn lemma_bootstrap_idempotent(systems_present: bool, waypoints_present: bool)
    ensures
        first_stage_of(true, true) == Stage::Ready,
        !(systems_present && waypoints_present) ==> {
            &&& first_stage_of(systems_present, waypoints_present) == Stage::FetchCatalog
            &&& next_stage_of(Stage::FetchCatalog, true) == Stage::ClearTables
            &&& next_stage_of(Stage::ClearTables, true) == Stage::RebuildSystems
            &&& next_stage_of(Stage::RebuildSystems, true) == Stage::RebuildWaypoints
            &&& next_stage_of(Stage::RebuildWaypoints, true) == Stage::Ready
            &&& run_stages(
                Stage::FetchCatalog,
                (systems_present, waypoints_present),
                seq![true, true, true, true],
            ) == (Stage::Ready, (true, true))
        },
{
    let t = (systems_present, waypoints_present);
    let s = seq![true, true, true, true];
    let s1 = seq![true, true, true];
    let s2 = seq![true, true];
    let s3 = seq![true];
    let s4 = Seq::<bool>::empty();
    assert(s.drop_first() =~= s1);
    assert(s1.drop_first() =~= s2);
    assert(s2.drop_first() =~= s3);
    assert(s3.drop_first() =~= s4);
    let t1 = (false, false);
    let t2 = (true, false);
    let t3 = (true, true);
    assert(run_stages(Stage::Ready, t3, s4) == (Stage::Ready, t3));
    assert(run_stages(Stage::RebuildWaypoints, t2, s3) == run_stages(Stage::Ready, t3, s4));
    assert(run_stages(Stage::RebuildSystems, t1, s2) == run_stages(Stage::RebuildWaypoints, t2, s3));
    assert(run_stages(Stage::ClearTables, t, s1) == run_stages(Stage::RebuildSystems, t1, s2));
    assert(run_stages(Stage::FetchCatalog, t, s) == run_stages(Stage::ClearTables, t, s1));
}

/// Whatever the outcomes, a bootstrap that starts from a missing table:
/// - ends ready exactly when every stage succeeded, and then both tables
///   exist;
/// - otherwise ends failed with a table still missing, so that the next run
///   finds the cache absent and starts over;
/// - after a failed fetch, ends at once with the tables untouched.
pub proof fn lemma_bootstrap_outcomes(tables: (bool, bool), oks: Seq<bool>)
    requires
        !(tables.0 && tables.1),
        oks.len() >= 4,
    ensures
        run_stages(Stage::FetchCatalog, tables, oks).0 == Stage::Ready <==> (oks[0] && oks[1] && oks[2]
            && oks[3]),
        run_stages(Stage::FetchCatalog, tables, oks).0 == Stage::Ready ==> run_stages(
            Stage::FetchCatalog,
            tables,
            oks,
        ).1 == (true, true),
        run_stages(Stage::FetchCatalog, tables, oks).0 != Stage::Ready ==> {
            &&& run_stages(Stage::FetchCatalog, tables, oks).0 == Stage::Failed
            &&& !(run_stages(Stage::FetchCatalog, tables, oks).1.0 && run_stages(
                Stage::FetchCatalog,
                tables,
                oks,
            ).1.1)
            &&& first_stage_of(
                run_stages(Stage::FetchCatalog, tables, oks).1.0,
                run_stages(Stage::FetchCatalog, tables, oks).1.1,
            ) == Stage::FetchCatalog
        },
        !oks[0] ==> run_stages(Stage::FetchCatalog, tables, oks) == (Stage::Failed, tables),
{
    let o1 = oks.drop_first();
    let o2 = o1.drop_first();
    let o3 = o2.drop_first();
    let o4 = o3.drop_first();
    assert(o1[0] == oks[1] && o2[0] == oks[2] && o3[0] == oks[3]);
    let t = tables;
    let whole = run_stages(Stage::FetchCatalog, t, oks);
    if !oks[0] {
        assert(whole == run_stages(Stage::Failed, t, o1));
        lemma_final_stays(Stage::Failed, t, o1);
    } else {
        assert(whole == run_stages(Stage::ClearTables, t, o1));
        if !oks[1] {
            assert(whole == run_stages(Stage::Failed, t, o2));
            lemma_final_stays(Stage::Failed, t, o2);
        } else {
            let t1 = (false, false);
            assert(whole == run_stages(Stage::RebuildSystems, t1, o2));
            if !oks[2] {
                assert(whole == run_stages(Stage::Failed, t1, o3));
                lemma_final_stays(Stage::Failed, t1, o3);
            } else {
                let t2 = (true, false);
                assert(whole == run_stages(Stage::RebuildWaypoints, t2, o3));
                if !oks[3] {
                    assert(whole == run_stages(Stage::Failed, t2, o4));
                    lemma_final_stays(Stage::Failed, t2, o4);
                } else {
                    assert(whole == run_stages(Stage::Ready, (true, true), o4));
                    lemma_final_stays(Stage::Ready, (true, true), o4);
                }
            }
        }
    }
}

/// The first stage to run, given which of the two tables exist.
pub fn first_stage(systems_present: bool, waypoints_present: bool) -> (r: Stage)
    ensures
        r == first_stage_of(systems_present, waypoints_present),
{
    if systems_present && waypoints_present {
        Stage::Ready
    } else {
        Stage::FetchCatalog
    }
}

/// The stage to run after `st` came back with `ok`.
pub fn next_stage(st: Stage, ok: bool) -> (r: Stage)
    ensures
        r == next_stage_of(st, ok),
{
    match st {
        Stage::FetchCatalog => if ok { Stage::ClearTables } else { Stage::Failed },
        Stage::ClearTables => if ok { Stage::RebuildSystems } else { Stage::Failed },
        Stage::RebuildSystems => if ok { Stage::RebuildWaypoints } else { Stage::Failed },
        Stage::RebuildWaypoints => if ok { Stage::Ready } else { Stage::Failed },
        Stage::Ready => Stage::Ready,
        Stage::Failed => Stage::Failed,
    }
}

} // verus!
