use st_cache::catalog::{System, Waypoint};
use st_cache::fetch::{CatalogFetch, PageRequest};

fn system(i: usize) -> System {
    System {
        symbol: format!("X1-S{i}"),
        sector_symbol: "X1".to_string(),
        kind: "RED_STAR".to_string(),
        x: i as i32,
        y: -(i as i32),
        factions: vec![],
        waypoints: vec![Waypoint { symbol: format!("X1-S{i}-A1"), kind: "PLANET".to_string(), x: 1, y: 2 }],
    }
}

fn run(all: &[System], page_size: u32) -> (Vec<PageRequest>, Vec<System>) {
    let mut f = CatalogFetch::new(page_size).unwrap();
    let mut asked = Vec::new();
    while let Some(req) = f.next_request() {
        asked.push(req);
        let lo = ((req.page - 1) * req.limit) as usize;
        let hi = ((req.page * req.limit) as usize).min(all.len());
        let page = if lo < all.len() { all[lo..hi].to_vec() } else { vec![] };
        f.accept_page(page, all.len() as u32);
    }
    assert!(f.is_done());
    (asked, f.into_catalog().unwrap())
}

#[test]
fn forty_seven_systems_in_pages_of_twenty() {
    let all: Vec<System> = (0..47).map(system).collect();
    let mut f = CatalogFetch::new(20).unwrap();
    let mut sizes = Vec::new();
    let mut pages = Vec::new();
    while let Some(req) = f.next_request() {
        pages.push(req.page);
        let lo = ((req.page - 1) * 20) as usize;
        let hi = ((req.page * 20) as usize).min(47);
        sizes.push(hi - lo);
        f.accept_page(all[lo..hi].to_vec(), 47);
    }
    assert_eq!(pages, vec![1, 2, 3]);
    assert_eq!(sizes, vec![20, 20, 7]);
    assert_eq!(f.into_catalog().unwrap(), all);
}

#[test]
fn requests_carry_the_page_size() {
    let f = CatalogFetch::new(20).unwrap();
    assert_eq!(f.next_request(), Some(PageRequest { page: 1, limit: 20 }));
}

#[test]
fn page_count_is_ceiling_and_order_is_kept() {
    for n in 1..30usize {
        for p in 1..8u32 {
            let all: Vec<System> = (0..n).map(system).collect();
            let (asked, items) = run(&all, p);
            assert_eq!(asked.len(), (n + p as usize - 1) / p as usize);
            assert_eq!(items, all);
        }
    }
}

#[test]
fn exact_multiple_stops_on_last_full_page() {
    let all: Vec<System> = (0..40).map(system).collect();
    let (asked, items) = run(&all, 20);
    assert_eq!(asked.len(), 2);
    assert_eq!(items.len(), 40);
}

#[test]
fn empty_catalog_stops_after_first_page() {
    let mut f = CatalogFetch::new(20).unwrap();
    assert_eq!(f.next_request(), Some(PageRequest { page: 1, limit: 20 }));
    f.accept_page(vec![], 0);
    assert!(f.is_done());
    assert_eq!(f.next_request(), None);
    assert!(f.into_catalog().unwrap().is_empty());
}

#[test]
fn zero_page_size_is_refused() {
    assert!(CatalogFetch::new(0).is_none());
}

#[test]
fn failed_page_ends_the_fetch_without_a_catalog() {
    let all: Vec<System> = (0..47).map(system).collect();
    let mut f = CatalogFetch::new(20).unwrap();
    let req = f.next_request().unwrap();
    assert_eq!(req.page, 1);
    f.accept_page(all[0..20].to_vec(), 47);
    assert_eq!(f.next_request(), Some(PageRequest { page: 2, limit: 20 }));
    f.fail();
    assert!(f.is_failed());
    assert!(!f.is_done());
    assert_eq!(f.next_request(), None);
    assert!(f.into_catalog().is_none());
}

#[test]
fn unfinished_fetch_yields_no_catalog() {
    let mut f = CatalogFetch::new(20).unwrap();
    f.accept_page((0..20).map(system).collect(), 47);
    assert!(f.into_catalog().is_none());
}
