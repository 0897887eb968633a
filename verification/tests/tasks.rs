use prio::backup::{backup_name, to_remove};
use prio::card::{card_changed, card_status, link_label, week_count, week_report, PillTone, Urgency};
use prio::date::Date;
use prio::store::{needs_resort, parse_tsv, reorder, sort_waiting, urls, Effort, Store, Task, Tier};

fn task(title: &str) -> Task {
    Task {
        title: title.into(),
        ..Default::default()
    }
}

#[test]
fn drag_reorder() {
    let mut v: Vec<char> = "abcd".chars().collect();
    reorder(&mut v, 0, 4);
    assert_eq!(v, vec!['b', 'c', 'd', 'a']);
    reorder(&mut v, 3, 0);
    assert_eq!(v, vec!['a', 'b', 'c', 'd']);
    reorder(&mut v, 2, 1);
    assert_eq!(v, vec!['a', 'c', 'b', 'd']);
    reorder(&mut v, 1, 1);
    assert_eq!(v, vec!['a', 'c', 'b', 'd']);
}

#[test]
fn links_and_waiting() {
    assert_eq!(
        urls("voir https://docs.example.com/x et <http://a.b> fin"),
        vec!["https://docs.example.com/x", "http://a.b"]
    );
    let mk = |w: &str| Task {
        waiting: w.into(),
        ..Default::default()
    };
    let mut v = vec![mk("Alice"), mk(""), mk("Bob"), mk("")];
    sort_waiting(&mut v);
    assert_eq!(
        v.iter().map(|t| t.waiting.as_str()).collect::<Vec<_>>(),
        vec!["", "", "Alice", "Bob"]
    );
    // the file's fields are all optional: a task with only a title reads with empty notes
    let json: serde_json::Value = serde_json::from_str(r#"{"active":[{"title":"x"}]}"#).unwrap();
    let mut t = Task::default();
    t.title = json["active"][0]["title"].as_str().unwrap().to_string();
    let s = Store {
        active: vec![t],
        done: Vec::new(),
    };
    assert_eq!(s.active[0].title, "x");
    assert!(s.active[0].notes.is_empty());
}

#[test]
fn reorder_bounds() {
    let mut v = vec![1, 2, 3];
    reorder(&mut v, 0, 100);
    assert_eq!(v, vec![2, 3, 1]);
    reorder(&mut v, 2, 2);
    assert_eq!(v, vec![2, 3, 1]);
    reorder(&mut v, 1, 0);
    assert_eq!(v, vec![3, 2, 1]);
}

#[test]
fn waiting_order_is_settled() {
    let mk = |t: &str, w: &str| Task {
        title: t.into(),
        waiting: w.into(),
        ..Default::default()
    };
    let mut v = vec![mk("a", "x"), mk("b", ""), mk("c", "y"), mk("d", "")];
    assert!(needs_resort(&v));
    sort_waiting(&mut v);
    assert!(!needs_resort(&v));
    let once: Vec<String> = v.iter().map(|t| t.title.clone()).collect();
    sort_waiting(&mut v);
    let twice: Vec<String> = v.iter().map(|t| t.title.clone()).collect();
    assert_eq!(once, vec!["b", "d", "a", "c"]);
    assert_eq!(once, twice);
}

#[test]
fn archive_and_restore() {
    let mut s = Store {
        active: vec![task("a"), task("b")],
        done: vec![task("old")],
    };
    s.archive(0, Date(2026, 9, 9));
    assert_eq!(s.active.len(), 1);
    assert_eq!(s.active[0].title, "b");
    assert_eq!(s.done[0].title, "a");
    assert_eq!(s.done[0].archived, "2026-09-09");
    assert_eq!(s.done[1].title, "old");
    s.restore(0);
    assert_eq!(s.done.len(), 1);
    assert_eq!(s.done[0].title, "old");
    assert_eq!(s.active[1].title, "a");
    assert!(s.active[1].archived.is_empty());
}

#[test]
fn restore_joins_its_section() {
    let mut w = task("w");
    w.waiting = "Bob".into();
    let mut back = task("back");
    back.archived = "2026-09-01".into();
    let mut s = Store {
        active: vec![task("a"), w],
        done: vec![back],
    };
    s.restore(0);
    let titles: Vec<&str> = s.active.iter().map(|t| t.title.as_str()).collect();
    assert_eq!(titles, vec!["a", "back", "w"]);
}

#[test]
fn move_undoes_a_drag_across_the_waiting_edge() {
    let mut w = task("w");
    w.waiting = "Bob".into();
    let mut s = Store {
        active: vec![task("a"), task("b"), w],
        done: Vec::new(),
    };
    s.move_task(0, 2, None);
    let titles: Vec<&str> = s.active.iter().map(|t| t.title.as_str()).collect();
    assert_eq!(titles, vec!["b", "a", "w"]);
    s.move_task(2, 0, None);
    let titles: Vec<&str> = s.active.iter().map(|t| t.title.as_str()).collect();
    assert_eq!(titles, vec!["b", "a", "w"]);
}

#[test]
fn old_list_format() {
    let ts = parse_tsv("\t2026-01-02\t\tAnne\tRelire\n   \n2026-01-05\t2026-01-01\t2026-01-03\tBob\tCompter\tencore\nseul\n");
    assert_eq!(ts.len(), 3);
    assert_eq!(ts[0].title, "Relire");
    assert_eq!(ts[0].from, "Anne");
    assert_eq!(ts[0].added, "2026-01-02");
    assert_eq!(ts[0].archived, "");
    assert_eq!(ts[1].archived, "2026-01-05");
    assert_eq!(ts[1].deadline, "2026-01-03");
    assert_eq!(ts[1].title, "Compter\tencore");
    assert_eq!(ts[2].archived, "seul");
    assert_eq!(ts[2].title, "");
    assert!(parse_tsv("").is_empty());
}

#[test]
fn links_in_notes() {
    assert_eq!(urls("rien"), Vec::<String>::new());
    assert_eq!(urls("\"https://a\"https://b ftp://c http:/d"), vec!["https://a", "https://b"]);
    assert_eq!(link_label("https://docs.example.com/x"), "docs.example.com/x");
    assert_eq!(link_label("http://a.b"), "a.b");
    assert_eq!(link_label("https://https://a.bcdefghij"), "a.bcdefghij…");
    let long = format!("https://{}", "x".repeat(60));
    assert_eq!(link_label(&long), format!("{}…", "x".repeat(48)));
}

#[test]
fn card_colours_and_pills() {
    let today = Date(2026, 9, 9);
    let mut t = task("t");
    t.added = "2026-09-01".into();
    t.deadline = "2026-09-09".into();
    let c = card_status(&t, today);
    assert_eq!(c.urgency, Some(Urgency::Overdue));
    assert_eq!(c.pill, Some(("aujourd'hui".to_string(), PillTone::Red)));
    assert_eq!(c.days_left, Some(0));
    assert_eq!(c.age, 8);
    assert!(!c.dimmed);

    t.deadline = "10/09/2026".into();
    assert_eq!(card_status(&t, today).pill, Some(("demain".to_string(), PillTone::Amber)));
    t.deadline = "2026-09-12".into();
    let c = card_status(&t, today);
    assert_eq!(c.pill, Some(("J-3 · 12/09/2026".to_string(), PillTone::Amber)));
    assert_eq!(c.urgency, Some(Urgency::Soon));
    t.deadline = "2026-09-20".into();
    let c = card_status(&t, today);
    assert_eq!(c.pill, Some(("J-11 · 20/09/2026".to_string(), PillTone::Accent)));
    assert_eq!(c.urgency, Some(Urgency::Later));
    t.deadline = "2026-09-07".into();
    assert_eq!(card_status(&t, today).pill, Some(("retard 2 j · 07/09/2026".to_string(), PillTone::Red)));

    t.waiting = "Bob".into();
    let c = card_status(&t, today);
    assert_eq!(c.urgency, Some(Urgency::Waiting));
    assert_eq!(c.pill, Some(("échéance 07/09/2026".to_string(), PillTone::Muted)));
    assert!(c.dimmed);

    t.archived = "2026-09-08".into();
    let c = card_status(&t, today);
    assert_eq!(c.urgency, Some(Urgency::Done));
    assert!(!c.waiting);
    assert_eq!(c.archived, Some(Date(2026, 9, 8)));
}

#[test]
fn stale_cards() {
    let today = Date(2026, 9, 9);
    let mut t = task("t");
    t.added = "2026-08-26".into();
    let c = card_status(&t, today);
    assert!(c.stale);
    assert_eq!(c.urgency, Some(Urgency::Stale));
    assert_eq!(c.pill, Some(("stagne depuis 14 j".to_string(), PillTone::Amber)));
    t.added = "2026-08-01".into();
    assert_eq!(card_status(&t, today).pill, Some(("stagne depuis 5 sem.".to_string(), PillTone::Amber)));
    t.added = "2026-08-27".into();
    let c = card_status(&t, today);
    assert!(!c.stale);
    assert_eq!(c.urgency, None);
    assert_eq!(c.pill, None);
    t.added = "pas une date".into();
    assert_eq!(card_status(&t, today).age, 0);
}

#[test]
fn week_report_lines() {
    let today = Date(2026, 9, 9);
    let mut a = task("Relire la doc");
    a.tags = vec!["Support N2".into(), "rh".into()];
    a.from = "Anne".into();
    a.archived = "2026-09-08".into();
    let mut b = task("Vieux");
    b.archived = "2026-09-01".into();
    let mut c = task("Compter");
    c.archived = "2026-09-03".into();
    let done = vec![a, b, c];
    assert_eq!(week_count(&done, today), 2);
    assert_eq!(
        week_report(&done, today),
        "- [x] Relire la doc #Support_N2 #rh (de Anne) - fait le 08/09/2026\n- [x] Compter - fait le 03/09/2026"
    );
    assert_eq!(week_report(&Vec::new(), today), "");
}

#[test]
fn week_report_leaves_out_future_dates() {
    let today = Date(2026, 9, 9);
    let mut a = task("Aujourd'hui");
    a.archived = "2026-09-09".into();
    let mut b = task("Demain");
    b.archived = "2026-09-10".into();
    let mut c = task("Il y a six jours");
    c.archived = "2026-09-03".into();
    let mut d = task("Il y a sept jours");
    d.archived = "2026-09-02".into();
    let done = vec![a, b, c, d];
    assert_eq!(week_count(&done, today), 2);
    assert_eq!(
        week_report(&done, today),
        "- [x] Aujourd'hui - fait le 09/09/2026\n- [x] Il y a six jours - fait le 03/09/2026"
    );
}

#[test]
fn daily_backups() {
    assert_eq!(backup_name(Date(2026, 9, 9)), "tasks.2026-09-09.json");
    let names: Vec<String> = (1..=33).map(|d| format!("tasks.2026-08-{:02}.json", d % 31 + 1)).collect();
    let mut distinct: Vec<String> = Vec::new();
    for n in names {
        if !distinct.contains(&n) {
            distinct.push(n);
        }
    }
    assert_eq!(distinct.len(), 31);
    let gone = to_remove(&distinct);
    assert_eq!(gone, vec!["tasks.2026-08-01.json"]);
    let few: Vec<String> = vec!["b".into(), "a".into()];
    assert!(to_remove(&few).is_empty());
    let many: Vec<String> = (0..35).rev().map(|i| format!("tasks.{:04}.json", i)).collect();
    let gone = to_remove(&many);
    assert_eq!(gone, vec!["tasks.0004.json", "tasks.0003.json", "tasks.0002.json", "tasks.0001.json", "tasks.0000.json"]);
}

#[test]
fn tiers_and_the_waiting_section() {
    let mk = |t: &str, tier: Tier, w: &str| Task {
        title: t.into(),
        tier,
        waiting: w.into(),
        ..Default::default()
    };
    let mut v = vec![
        mk("a", Tier::Low, ""),
        mk("b", Tier::High, ""),
        mk("c", Tier::High, "Bob"),
        mk("d", Tier::Medium, ""),
        mk("e", Tier::High, ""),
    ];
    assert!(needs_resort(&v));
    sort_waiting(&mut v);
    let titles: Vec<&str> = v.iter().map(|t| t.title.as_str()).collect();
    assert_eq!(titles, vec!["b", "e", "d", "a", "c"]);
    assert!(!needs_resort(&v));
    let d = Task::default();
    assert_eq!((d.tier, d.effort), (Tier::Medium, Effort::TwoHours));
}

#[test]
fn dragging_across_a_tier_edge_changes_the_tier() {
    let mk = |t: &str, tier: Tier| Task {
        title: t.into(),
        tier,
        ..Default::default()
    };
    let mut s = Store {
        active: vec![mk("h1", Tier::High), mk("m1", Tier::Medium), mk("m2", Tier::Medium)],
        done: Vec::new(),
    };
    // m2 dropped at the top, in the High tier: ranked first, promoted
    s.move_task(2, 0, Some(Tier::High));
    let titles: Vec<&str> = s.active.iter().map(|t| t.title.as_str()).collect();
    assert_eq!(titles, vec!["m2", "h1", "m1"]);
    assert_eq!(s.active[0].tier, Tier::High);
    // h1 dropped at the end, in the Low tier
    s.move_task(1, 3, Some(Tier::Low));
    let titles: Vec<&str> = s.active.iter().map(|t| t.title.as_str()).collect();
    assert_eq!(titles, vec!["m2", "m1", "h1"]);
    assert_eq!(s.active[2].tier, Tier::Low);
    // a drop that names no tier keeps the task's own: it goes back to its section
    s.move_task(0, 3, None);
    let titles: Vec<&str> = s.active.iter().map(|t| t.title.as_str()).collect();
    assert_eq!(titles, vec!["m2", "m1", "h1"]);
}

#[test]
fn edits_that_change_a_card() {
    let mut a = task("t");
    a.tags = vec!["rh".into()];
    a.notes = "n".into();
    let b = a.clone();
    assert!(!card_changed(&a, &b));
    let mut c = a.clone();
    c.waiting = "Client".into();
    assert!(card_changed(&a, &c));
    let mut d = a.clone();
    d.tags = vec!["rh".into(), "mira".into()];
    assert!(card_changed(&a, &d));
    let mut e = a.clone();
    e.tags = vec!["RH".into()];
    assert!(card_changed(&a, &e));
    let mut f = a.clone();
    f.notes = "n2".into();
    assert!(card_changed(&a, &f));
    let mut g = a.clone();
    g.archived = "2026-09-09".into();
    assert!(card_changed(&a, &g));
    // the title is not edited on an open card
    let mut h = a.clone();
    h.title = "autre".into();
    assert!(!card_changed(&a, &h));
}
