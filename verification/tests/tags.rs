use prio::people::{avatar_index, initials, name_suggestions, names, tag_color_index, tags_all};
use prio::store::{Store, Task};
use prio::tags::{accept_completion, completion, join, parse_tags, toggle_tag};

fn strings(v: &[&str]) -> Vec<String> {
    v.iter().map(|s| s.to_string()).collect()
}

#[test]
fn completion_suffix() {
    let names: Vec<String> = ["Anne Sophie", "BK", "Client"].iter().map(|s| s.to_string()).collect();
    assert_eq!(completion("an", &names, false), Some("ne Sophie".into()));
    assert_eq!(completion("BK", &names, false), None);
    assert_eq!(completion("", &names, false), None);
    assert_eq!(completion("rh, cl", &names, true), Some("ient".into()));
    assert_eq!(completion("rh,", &names, true), None);
}

#[test]
fn tags() {
    assert_eq!(parse_tags(" rh, #Support N2 ;mira,, RH "), vec!["rh", "Support N2", "mira"]);
    let mut s = "rh, mira".to_string();
    toggle_tag(&mut s, "MIRA");
    assert_eq!(s, "rh");
    toggle_tag(&mut s, "connecteurs");
    assert_eq!(s, "rh, connecteurs");
}

#[test]
fn completion_cases() {
    let names = strings(&["Anne Sophie", "BK", "Client"]);
    // the typed text is matched in lowercase, the suffix keeps the candidate's spelling
    assert_eq!(completion("CL", &names, false), Some("ient".into()));
    assert_eq!(completion("  an", &names, false), Some("ne Sophie".into()));
    assert_eq!(completion("zz", &names, false), None);
    assert_eq!(completion("client", &names, false), None);
    assert_eq!(completion("x, b", &names, true), Some("K".into()));
    assert_eq!(completion("x, b", &names, false), None);
}

#[test]
fn tab_accepts_the_completion() {
    let names = strings(&["Anne Sophie", "Client"]);
    let mut one = "cl".to_string();
    accept_completion(&mut one, &names, false);
    assert_eq!(one, "Client");
    let mut many = "rh, cl".to_string();
    accept_completion(&mut many, &names, true);
    assert_eq!(many, "rh, Client, ");
    let mut none = "zz".to_string();
    accept_completion(&mut none, &names, true);
    assert_eq!(none, "zz");
}

#[test]
fn tab_takes_the_suggestion_shown() {
    let names = strings(&["cl", "Client"]);
    assert_eq!(completion("cl", &names, false), Some("ient".into()));
    let mut one = "cl".to_string();
    accept_completion(&mut one, &names, false);
    assert_eq!(one, "Client");
    let mut many = "rh, CL".to_string();
    accept_completion(&mut many, &names, true);
    assert_eq!(many, "rh, Client, ");
    let only = strings(&["cl"]);
    let mut same = "cl".to_string();
    accept_completion(&mut same, &only, false);
    assert_eq!(same, "cl");
}

#[test]
fn toggling_an_absent_tag_twice_gives_the_tags_back() {
    let mut s = " rh ;Support N2,, ".to_string();
    toggle_tag(&mut s, "mira");
    assert!(parse_tags(&s).contains(&"mira".to_string()));
    toggle_tag(&mut s, "mira");
    assert_eq!(s, join(&parse_tags(" rh ;Support N2,, ")));
    assert_eq!(s, "rh, Support N2");
}

#[test]
fn toggling_twice_and_reading_back() {
    let mut s = "rh, Support N2".to_string();
    toggle_tag(&mut s, "mira");
    assert_eq!(parse_tags(&s), vec!["rh", "Support N2", "mira"]);
    toggle_tag(&mut s, "mira");
    assert_eq!(s, "rh, Support N2");
    let tags = parse_tags("rh;  a b ,#c");
    assert_eq!(tags, vec!["rh", "a b", "c"]);
    assert_eq!(parse_tags(&join(&tags)), tags);
    assert_eq!(join(&Vec::new()), "");
    // a tag that reads "#a" once cleaned reads back as "a"
    assert_eq!(parse_tags("# #a"), vec!["#a"]);
    assert_eq!(parse_tags(&join(&parse_tags("# #a"))), vec!["a"]);
}

#[test]
fn names_and_tags_most_frequent_first() {
    let mk = |from: &str, waiting: &str, tags: &[&str]| Task {
        from: from.into(),
        waiting: waiting.into(),
        tags: strings(tags),
        ..Default::default()
    };
    let store = Store {
        active: vec![mk("Bob", " Anne ", &["rh", "Mira"]), mk("Anne", "", &["RH"])],
        done: vec![mk("Carl", "Bob", &["mira", "x"]), mk(" ", "", &["rh"])],
    };
    assert_eq!(names(&store), vec!["Anne", "Bob", "Carl"]);
    let t = tags_all(&store);
    assert_eq!(t, vec![("rh".to_string(), 3), ("Mira".to_string(), 2), ("x".to_string(), 1)]);
}

#[test]
fn name_chips() {
    let ns = strings(&["Anne", "Annabelle", "Bob", "Jean", "Joan", "Zoé", "Yann", "Xan"]);
    assert_eq!(name_suggestions(&ns, ""), strings(&["Anne", "Annabelle", "Bob", "Jean", "Joan", "Zoé"]));
    assert_eq!(name_suggestions(&ns, " AN "), strings(&["Anne", "Annabelle", "Jean", "Joan", "Yann", "Xan"]));
    assert_eq!(name_suggestions(&ns, "anne"), Vec::<String>::new());
}

#[test]
fn avatars_and_tag_colours() {
    assert_eq!(initials("Anne Sophie"), "AS");
    assert_eq!(initials("bob"), "BO");
    assert_eq!(initials("  jean   paul marc "), "JP");
    assert_eq!(initials("x"), "X");
    assert_eq!(initials("  "), "");
    assert_eq!(avatar_index("Anne"), 2);
    assert_eq!(tag_color_index("RH"), 2);
    assert_eq!(tag_color_index("rh"), tag_color_index("Rh"));
}
