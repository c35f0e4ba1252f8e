use st_cache::bootstrap::{first_stage, next_stage, Stage};
use st_cache::catalog::{System, Waypoint};
use st_cache::load::{
    chunk_ranges, chunk_rows, waypoint_rows, LoadStep, TableLoad, WaypointRow, BIND_LIMIT,
    SYSTEM_COLUMNS, WAYPOINT_COLUMNS,
};

fn waypoint(s: &str, i: i32) -> Waypoint {
    Waypoint { symbol: format!("{s}-W{i}"), kind: "MOON".to_string(), x: i, y: i + 1 }
}

fn system(s: &str, n: i32) -> System {
    System {
        symbol: s.to_string(),
        sector_symbol: "X1".to_string(),
        kind: "BLUE_STAR".to_string(),
        x: 0,
        y: 0,
        factions: vec!["COSMIC".to_string()],
        waypoints: (0..n).map(|i| waypoint(s, i)).collect(),
    }
}

fn drive(load: &mut TableLoad, fail_at: Option<usize>) -> (Vec<LoadStep>, LoadStep) {
    let mut steps = Vec::new();
    loop {
        let step = load.next_step();
        match step {
            LoadStep::Rollback | LoadStep::Finished => return (steps, step),
            _ => {
                let ok = fail_at != Some(steps.len());
                steps.push(step);
                load.record(ok);
            }
        }
    }
}

#[test]
fn rows_per_statement_under_the_limit() {
    assert_eq!(chunk_rows(SYSTEM_COLUMNS, BIND_LIMIT), 10922);
    assert_eq!(chunk_rows(WAYPOINT_COLUMNS, BIND_LIMIT), 13107);
    assert_eq!(chunk_rows(6, 12), 2);
    assert_eq!(chunk_rows(7, 6), 0);
}

#[test]
fn forty_seven_rows_two_per_statement() {
    let r = chunk_ranges(47, 2);
    assert_eq!(r.len(), 24);
    assert_eq!(r[0], (0, 2));
    assert_eq!(r[22], (44, 46));
    assert_eq!(r[23], (46, 47));
    let mut load = TableLoad::new(47, 6, 12).unwrap();
    assert_eq!(load.statement_count(), 24);
    let (steps, last) = drive(&mut load, None);
    assert_eq!(steps.len(), 25);
    assert_eq!(steps[24], LoadStep::Commit);
    assert_eq!(last, LoadStep::Finished);
}

#[test]
fn chunks_cover_every_row_once() {
    for n in 0..60usize {
        for size in 1..9usize {
            let r = chunk_ranges(n, size);
            assert_eq!(r.len(), (n + size - 1) / size);
            let mut at = 0;
            for &(s, e) in &r {
                assert_eq!(s, at);
                assert!(e > s && e - s <= size);
                at = e;
            }
            assert_eq!(at, n);
        }
    }
}

#[test]
fn no_rows_means_only_a_commit() {
    assert!(chunk_ranges(0, 5).is_empty());
    let mut load = TableLoad::new(0, SYSTEM_COLUMNS, BIND_LIMIT).unwrap();
    assert_eq!(load.next_step(), LoadStep::Commit);
    load.record(true);
    assert_eq!(load.next_step(), LoadStep::Finished);
}

#[test]
fn load_refuses_a_limit_below_one_row() {
    assert!(TableLoad::new(10, 0, 100).is_none());
    assert!(TableLoad::new(10, 7, 6).is_none());
    assert!(TableLoad::new(10, 6, 6).is_some());
}

#[test]
fn failure_on_any_statement_rolls_back() {
    for fail in 0..5usize {
        let mut load = TableLoad::new(9, 1, 2).unwrap();
        let (steps, last) = drive(&mut load, Some(fail));
        assert_eq!(last, LoadStep::Rollback);
        assert!(!steps.contains(&LoadStep::Commit));
        assert_eq!(steps.len(), fail + 1);
    }
}

#[test]
fn failed_commit_rolls_back() {
    let mut load = TableLoad::new(3, 1, 2).unwrap();
    let (steps, last) = drive(&mut load, Some(2));
    assert_eq!(steps, vec![LoadStep::Insert(0, 2), LoadStep::Insert(2, 3), LoadStep::Commit]);
    assert_eq!(last, LoadStep::Rollback);
}

#[test]
fn statements_go_out_in_input_order() {
    let mut load = TableLoad::new(5, 2, 4).unwrap();
    let (steps, last) = drive(&mut load, None);
    assert_eq!(
        steps,
        vec![LoadStep::Insert(0, 2), LoadStep::Insert(2, 4), LoadStep::Insert(4, 5), LoadStep::Commit]
    );
    assert_eq!(last, LoadStep::Finished);
}

#[test]
fn waypoint_rows_skip_empty_systems() {
    let systems = vec![system("X1-A", 2), system("X1-B", 0), system("X1-C", 1)];
    let rows = waypoint_rows(&systems);
    assert_eq!(rows.len(), 3);
    assert_eq!(
        rows[0],
        WaypointRow {
            symbol: "X1-A-W0".to_string(),
            kind: "MOON".to_string(),
            system_symbol: "X1-A".to_string(),
            x: 0,
            y: 1
        }
    );
    assert_eq!(rows[1].symbol, "X1-A-W1");
    assert_eq!(rows[2].symbol, "X1-C-W0");
    assert_eq!(rows[2].system_symbol, "X1-C");
    assert!(waypoint_rows(&vec![system("X1-D", 0)]).is_empty());
}

#[test]
fn waypoint_row_count_is_total_waypoints() {
    let systems: Vec<System> = (0..10).map(|i| system(&format!("S{i}"), i % 4)).collect();
    let total: usize = systems.iter().map(|s| s.waypoints.len()).sum();
    assert_eq!(waypoint_rows(&systems).len(), total);
}

fn run_bootstrap(systems: bool, waypoints: bool, outcomes: &[bool]) -> (Vec<Stage>, Stage) {
    let mut stage = first_stage(systems, waypoints);
    let mut ran = Vec::new();
    let mut next = outcomes.iter();
    while stage != Stage::Ready && stage != Stage::Failed {
        ran.push(stage);
        stage = next_stage(stage, *next.next().unwrap());
    }
    (ran, stage)
}

#[test]
fn bootstrap_runs_only_when_a_table_is_missing() {
    let full = vec![Stage::FetchCatalog, Stage::ClearTables, Stage::RebuildSystems, Stage::RebuildWaypoints];
    assert_eq!(first_stage(true, true), Stage::Ready);
    assert_eq!(run_bootstrap(false, false, &[true, true, true, true]), (full.clone(), Stage::Ready));
    assert_eq!(run_bootstrap(true, false, &[true, true, true, true]), (full.clone(), Stage::Ready));
    assert_eq!(run_bootstrap(false, true, &[true, true, true, true]), (full, Stage::Ready));
}

#[test]
fn second_bootstrap_does_nothing() {
    let (ran, end) = run_bootstrap(false, true, &[true, true, true, true]);
    assert_eq!(end, Stage::Ready);
    assert_eq!(ran.iter().filter(|s| **s == Stage::FetchCatalog).count(), 1);
    // Both tables were rebuilt, so the next run has nothing to do.
    let (again, end) = run_bootstrap(true, true, &[]);
    assert!(again.is_empty());
    assert_eq!(end, Stage::Ready);
}

#[test]
fn failed_fetch_touches_no_table() {
    let (ran, end) = run_bootstrap(false, false, &[false]);
    assert_eq!(ran, vec![Stage::FetchCatalog]);
    assert_eq!(end, Stage::Failed);
}

#[test]
fn any_later_failure_ends_the_bootstrap() {
    let (ran, end) = run_bootstrap(false, true, &[true, false]);
    assert_eq!(ran, vec![Stage::FetchCatalog, Stage::ClearTables]);
    assert_eq!(end, Stage::Failed);
    let (ran, end) = run_bootstrap(false, true, &[true, true, false]);
    assert_eq!(ran, vec![Stage::FetchCatalog, Stage::ClearTables, Stage::RebuildSystems]);
    assert_eq!(end, Stage::Failed);
    let (ran, end) = run_bootstrap(true, false, &[true, true, true, false]);
    assert_eq!(
        ran,
        vec![Stage::FetchCatalog, Stage::ClearTables, Stage::RebuildSystems, Stage::RebuildWaypoints]
    );
    assert_eq!(end, Stage::Failed);
}
