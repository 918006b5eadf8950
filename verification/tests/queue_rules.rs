use wiliplayerconvert::queue::{Item, Msg, SizeUnit, Status};
use wiliplayerconvert::queue as q;

fn item(p: &str, s: Status) -> Item {
    Item { path: p.as_bytes().to_vec(), status: s }
}

fn names(items: &[Item]) -> Vec<String> {
    items.iter().map(|i| String::from_utf8(i.path.clone()).unwrap()).collect()
}

fn paths(ps: &[&str]) -> Vec<Vec<u8>> {
    ps.iter().map(|p| p.as_bytes().to_vec()).collect()
}

#[test]
fn log_keeps_the_newest_thousand_lines() {
    let mut log = Vec::new();
    for i in 0..1005 {
        q::push_log(&mut log, format!("line {i}"));
    }
    assert_eq!(log.len(), 1000);
    assert_eq!(log[0], "line 5");
    assert_eq!(log[999], "line 1004");
}

#[test]
fn adding_files_skips_duplicates() {
    let mut items = vec![item("a.mp4", Status::Done("a.fwmv".to_string()))];
    let added = q::add_unique(&mut items, paths(&["b.mp4", "a.mp4", "b.mp4", "c.mp4"]));
    assert_eq!(added, 2);
    assert_eq!(names(&items), vec!["a.mp4", "b.mp4", "c.mp4"]);
    assert!(matches!(items[1].status, Status::Queued));
    assert!(matches!(items[0].status, Status::Done(_)));
    assert_eq!(q::add_unique(&mut items, paths(&["c.mp4", "b.mp4"])), 0);
}

#[test]
fn clearing_finished_keeps_queued_and_converting_rows() {
    let mut items = vec![
        item("a", Status::Done("x".into())),
        item("b", Status::Queued),
        item("c", Status::Failed("bad".into())),
        item("d", Status::Converting(500)),
    ];
    assert!(q::has_finished(&items));
    q::clear_finished(&mut items);
    assert_eq!(names(&items), vec!["b", "d"]);
    assert!(!q::has_finished(&items));
}

#[test]
fn failed_rows_are_still_pending() {
    let done = vec![item("a", Status::Done("x".into()))];
    assert!(!q::has_pending(&done));
    let failed = vec![item("a", Status::Done("x".into())), item("b", Status::Failed("e".into()))];
    assert!(q::has_pending(&failed));
    assert!(Status::Failed("e".into()).is_finished());
    assert!(!Status::Converting(3).is_finished());
}

#[test]
fn a_batch_takes_every_row_not_done() {
    let mut items = vec![
        item("a", Status::Done("x".into())),
        item("b", Status::Failed("e".into())),
        item("c", Status::Queued),
    ];
    assert_eq!(q::pending_jobs(&items), vec![1, 2]);
    q::requeue_pending(&mut items);
    assert!(matches!(items[0].status, Status::Done(_)));
    assert!(matches!(items[1].status, Status::Queued));
}

#[test]
fn concurrency_defaults_and_limits() {
    assert_eq!(q::default_concurrency(1), 2);
    assert_eq!(q::default_concurrency(16), 4);
    assert_eq!(q::default_concurrency(64), 8);
    assert_eq!(q::restored_concurrency(Some(0), 8, 3), 1);
    assert_eq!(q::restored_concurrency(Some(99), 8, 3), 8);
    assert_eq!(q::restored_concurrency(Some(5), 8, 3), 5);
    assert_eq!(q::restored_concurrency(None, 8, 3), 3);
    assert_eq!(q::worker_plan(4, 2, 16), (2, 8));
    assert_eq!(q::worker_plan(4, 10, 2), (4, 1));
    assert_eq!(q::worker_plan(0, 10, 8), (1, 8));
}

#[test]
fn worker_reports_update_rows() {
    let mut items = vec![item("a", Status::Queued), item("b", Status::Queued)];
    let mut logged = Vec::new();
    assert!(!q::apply_msg(&mut items, &mut logged, Msg::Progress(1, 250)));
    assert!(matches!(items[1].status, Status::Converting(250)));
    assert!(!q::apply_msg(&mut items, &mut logged, Msg::Done(0, "a.fwmv".into())));
    assert!(matches!(&items[0].status, Status::Done(p) if p == "a.fwmv"));
    assert!(!q::apply_msg(&mut items, &mut logged, Msg::Failed(1, "boom".into())));
    assert!(matches!(&items[1].status, Status::Failed(e) if e == "boom"));
    assert!(!q::apply_msg(&mut items, &mut logged, Msg::Log("hi".into())));
    assert_eq!(logged, vec!["hi"]);
    assert!(q::apply_msg(&mut items, &mut logged, Msg::Batch));
}

#[test]
fn sizes_pick_their_unit() {
    assert_eq!(q::size_unit(1023), SizeUnit::Bytes);
    assert_eq!(q::size_unit(1024), SizeUnit::Kilobytes);
    assert_eq!(q::size_unit(1048575), SizeUnit::Kilobytes);
    assert_eq!(q::size_unit(1048576), SizeUnit::Megabytes);
}
