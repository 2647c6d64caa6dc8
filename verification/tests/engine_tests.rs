use statemap::Config;
use statemap::Statemap;

fn minimal(config: Option<&Config>) -> Statemap {
    let mut statemap;
    match config {
        Some(config) => {
            statemap = Statemap::new(&config);
        }
        None => {
            let config: Config = Default::default();
            statemap = Statemap::new(&config);
        }
    }
    let md = r##"{
        "start": [ 0, 0 ],
        "title": "Foo",
        "states": {
            "zero": {"value": 0 },
            "one": {"value": 1 }
        }
    }"##;
    match statemap.ingest_metadata(md.as_bytes()) {
        Err(err) => {
            panic!("metadata incorrectly failed: {:?}", err);
        }
        Ok(_) => statemap,
    }
}

fn data(config: Option<&Config>, data: Vec<&str>) -> Statemap {
    let mut statemap = minimal(config);
    for datum in data {
        match statemap.ingest_datum(datum.as_bytes()) {
            Err(err) => {
                panic!("data incorrectly failed: {:?}", err);
            }
            Ok(_) => {}
        }
    }
    statemap
}

fn alternating() -> Statemap {
    data(
        None,
        vec![
            r##"{ "time": "100000", "entity": "foo", "state": 0 }"##,
            r##"{ "time": "200000", "entity": "foo", "state": 1 }"##,
            r##"{ "time": "300000", "entity": "foo", "state": 0 }"##,
            r##"{ "time": "400000", "entity": "foo", "state": 1 }"##,
            r##"{ "time": "500000", "entity": "foo", "state": 0 }"##,
            r##"{ "time": "600000", "entity": "foo", "state": 1 }"##,
        ],
    )
}

#[test]
fn subsume() {
    let mut statemap = alternating();

    assert!(statemap.verify());
    assert!(statemap.subsume_apply_and_verify("foo", 100000));
    assert!(statemap.subsume_apply_and_verify("foo", 300000));
    assert!(statemap.subsume_apply_and_verify("foo", 100000));
}

#[test]
fn subsume_right() {
    let mut statemap = alternating();

    assert!(statemap.verify());
    assert!(statemap.subsume_apply_and_verify("foo", 500000));
    assert!(statemap.subsume_apply_and_verify("foo", 400000));
    assert!(statemap.subsume_apply_and_verify("foo", 300000));
    assert!(statemap.subsume_apply_and_verify("foo", 200000));
}

#[test]
fn subsume_middle() {
    let mut statemap = alternating();

    assert!(statemap.verify());
    assert!(statemap.subsume_apply_and_verify("foo", 300000));
    assert!(statemap.subsume_apply_and_verify("foo", 300000));
    assert!(statemap.subsume_apply_and_verify("foo", 200000));
}

#[test]
fn subsume_tagged() {
    let mut statemap = data(
        None,
        vec![
            r##"{ "time": "100", "entity": "foo", "state": 0, "tag": "a" }"##,
            r##"{ "time": "200", "entity": "foo", "state": 1, "tag": "b" }"##,
            r##"{ "time": "300", "entity": "foo", "state": 0, "tag": "c" }"##,
            r##"{ "time": "400", "entity": "foo", "state": 1, "tag": "b" }"##,
            r##"{ "time": "500", "entity": "foo", "state": 0, "tag": "a" }"##,
            r##"{ "time": "600", "entity": "foo", "state": 1, "tag": "b" }"##,
        ],
    );

    assert!(statemap.verify());
    assert!(statemap.subsume_apply_and_verify("foo", 100));
    assert!(statemap.subsume_apply_and_verify("foo", 300));
    assert!(statemap.subsume_apply_and_verify("foo", 100));
}

fn trimmable() -> Statemap {
    data(
        None,
        vec![
            r##"{ "time": "0", "entity": "foo", "state": 0 }"##,
            r##"{ "time": "100", "entity": "foo", "state": 1 }"##,
            r##"{ "time": "101", "entity": "foo", "state": 0 }"##,
            r##"{ "time": "104", "entity": "foo", "state": 1 }"##,
            r##"{ "time": "106", "entity": "foo", "state": 0 }"##,
            r##"{ "time": "206", "entity": "foo", "state": 1 }"##,
            r##"{ "time": "207", "entity": "foo", "state": 0 }"##,
        ],
    )
}

#[test]
fn trim() {
    let mut statemap = trimmable();

    statemap.trim();
    assert!(statemap.verify());

    statemap.trim();
    assert!(statemap.verify());

    statemap.trim();
    assert!(statemap.verify());
}

#[test]
fn trim_insert() {
    let mut statemap = trimmable();

    statemap.trim();
    assert!(statemap.verify());

    let datum = r##"{ "time": "210", "entity": "foo", "state": 1 }"##;
    assert!(statemap.ingest_datum(datum.as_bytes()).is_ok());
    assert!(statemap.verify());

    statemap.trim();
    assert!(statemap.verify());
}

#[test]
fn trim_multient() {
    let mut statemap = data(
        None,
        vec![
            r##"{ "time": "0", "entity": "foo", "state": 0 }"##,
            r##"{ "time": "1000", "entity": "foo", "state": 1 }"##,
            r##"{ "time": "1010", "entity": "foo", "state": 0 }"##,
            r##"{ "time": "1040", "entity": "foo", "state": 1 }"##,
            r##"{ "time": "1060", "entity": "foo", "state": 0 }"##,
            r##"{ "time": "2060", "entity": "foo", "state": 1 }"##,
            r##"{ "time": "2070", "entity": "foo", "state": 0 }"##,
            r##"{ "time": "0", "entity": "bar", "state": 0 }"##,
            r##"{ "time": "10", "entity": "bar", "state": 1 }"##,
        ],
    );

    statemap.trim();
    assert!(statemap.verify());
}

#[test]
fn data_begin_time() {
    let mut config: Config = Default::default();
    config.begin = 200000;

    let statemap = data(
        Some(&config),
        vec![
            r##"{ "time": "100000", "entity": "foo", "state": 0 }"##,
            r##"{ "time": "200000", "entity": "foo", "state": 1 }"##,
            r##"{ "time": "300000", "entity": "foo", "state": 0 }"##,
            r##"{ "time": "400000", "entity": "foo", "state": 1 }"##,
            r##"{ "time": "500000", "entity": "foo", "state": 0 }"##,
            r##"{ "time": "600000", "entity": "foo", "state": 1 }"##,
        ],
    );

    assert!(statemap.verify());

    let rects = statemap.get_rects("foo");
    assert_eq!(rects.len(), 4);
    assert_eq!(rects[0].0, 200000);
    assert_eq!(rects[0].1, 300000 - 200000);
}

#[test]
fn data_begin_time_later() {
    let mut config: Config = Default::default();
    config.begin = 200001;

    let statemap = data(
        Some(&config),
        vec![
            r##"{ "time": "100000", "entity": "foo", "state": 0 }"##,
            r##"{ "time": "200000", "entity": "foo", "state": 1 }"##,
            r##"{ "time": "300000", "entity": "foo", "state": 0 }"##,
            r##"{ "time": "400000", "entity": "foo", "state": 1 }"##,
            r##"{ "time": "500000", "entity": "foo", "state": 0 }"##,
            r##"{ "time": "600000", "entity": "foo", "state": 1 }"##,
        ],
    );

    assert!(statemap.verify());

    let rects = statemap.get_rects("foo");
    assert_eq!(rects.len(), 4);
    assert_eq!(rects[0].0, 200001);
    assert_eq!(rects[0].1, 300000 - 200001);
    assert_eq!((rects[0].2)[0], 0);
    assert_eq!((rects[0].2)[1], 300000 - 200001);
}

#[test]
fn minimal_roundtrip() {
    let statemap = alternating();
    assert!(statemap.verify());

    let rects = statemap.get_rects("foo");
    assert_eq!(rects.len(), 5);
    for i in 0..5 {
        assert_eq!(rects[i].0, 100000 + 100000 * i as u64);
        assert_eq!(rects[i].1, 100000);
        let want_state = i % 2;
        assert_eq!(rects[i].2[want_state], 100000);
        assert_eq!(rects[i].2[1 - want_state], 0);
    }
}

#[test]
fn subsume_left_tail() {
    let mut statemap = alternating();
    assert!(statemap.subsume_apply_and_verify("foo", 100000));

    let rects = statemap.get_rects("foo");
    assert_eq!(rects.len(), 4);
    assert_eq!(rects[0].0, 100000);
    assert_eq!(rects[0].1, 200000);
    assert_eq!(rects[0].2, vec![100000, 100000]);
}

#[test]
fn subsume_middle_tie_right() {
    let mut statemap = alternating();
    assert!(statemap.subsume_apply_and_verify("foo", 300000));

    // equal neighbors tie to the right-side branch: the victim's slot
    // survives and absorbs its right neighbor
    let rects = statemap.get_rects("foo");
    assert_eq!(rects.len(), 4);
    assert_eq!(rects[2].0, 300000);
    assert_eq!(rects[2].1, 200000);
    assert_eq!(rects[2].2, vec![100000, 100000]);
}

#[test]
fn tag_merge() {
    let mut statemap = data(
        None,
        vec![
            r##"{ "time": "100", "entity": "foo", "state": 0, "tag": "a" }"##,
            r##"{ "time": "200", "entity": "foo", "state": 1, "tag": "b" }"##,
            r##"{ "time": "300", "entity": "foo", "state": 0, "tag": "c" }"##,
            r##"{ "time": "400", "entity": "foo", "state": 1, "tag": "b" }"##,
            r##"{ "time": "500", "entity": "foo", "state": 0, "tag": "a" }"##,
            r##"{ "time": "600", "entity": "foo", "state": 1, "tag": "b" }"##,
        ],
    );

    assert!(statemap.subsume_apply_and_verify("foo", 100));

    // tags a and b each cover half of the merged rectangle
    let tags = statemap.get_rect_tags("foo", 100).expect("tags expected");
    assert_eq!(tags, vec![(0, 100), (1, 100)]);

    let rects = statemap.get_rects("foo");
    assert_eq!(rects[0].1, 200);
}

#[test]
fn trim_cascade() {
    let mut config: Config = Default::default();
    config.maxrect = 2;

    let mut statemap = Statemap::new(&config);
    let raw = r##"{ "start": [ 0, 0 ], "title": "Foo", "states": { "zero": {"value": 0 }, "one": {"value": 1 } } }
{ "time": "100", "entity": "foo", "state": 0 }
{ "time": "200", "entity": "foo", "state": 1 }
{ "time": "300", "entity": "foo", "state": 0 }
{ "time": "400", "entity": "foo", "state": 1 }
{ "time": "500", "entity": "foo", "state": 0 }
{ "time": "600", "entity": "foo", "state": 1 }
{ "time": "700", "entity": "foo", "state": 0 }
"##;
    statemap.ingest(raw.as_bytes()).expect("ingest failed");

    // the budget held: fewer than two indexed rectangles remain
    assert!(statemap.byweight.entries.len() < 2);

    // the trailing closure added one exempt rectangle at the end
    let rects = statemap.get_rects("foo");
    assert!(rects.len() <= 3);

    // coalescing lost no time: per-state totals cover the whole span
    let mut zero: u64 = 0;
    let mut one: u64 = 0;
    for r in &rects {
        zero += r.2[0];
        one += r.2[1];
    }
    assert_eq!(zero + one, 600);
    assert_eq!(zero, 300);
    assert_eq!(one, 300);
}

#[test]
fn end_closure_uses_max_start() {
    let config: Config = Default::default();
    let mut statemap = Statemap::new(&config);
    let raw = r##"{ "start": [ 0, 0 ], "title": "Foo", "states": { "zero": {"value": 0 }, "one": {"value": 1 } } }
{ "time": "100", "entity": "foo", "state": 0 }
{ "time": "300", "entity": "bar", "state": 1 }
"##;
    statemap.ingest(raw.as_bytes()).expect("ingest failed");

    // with no configured end, foo's open interval closes at bar's start
    let rects = statemap.get_rects("foo");
    assert_eq!(rects.len(), 1);
    assert_eq!(rects[0].0, 100);
    assert_eq!(rects[0].1, 200);

    // bar held the greatest start, so it stays open and gets no rectangle
    assert_eq!(statemap.get_rects("bar").len(), 0);
}

#[test]
fn end_boundary_accepted() {
    let mut config: Config = Default::default();
    config.end = 300;

    let mut statemap = minimal(Some(&config));
    let at_end = r##"{ "time": "300", "entity": "foo", "state": 0 }"##;
    let beyond = r##"{ "time": "301", "entity": "foo", "state": 1 }"##;
    let before = r##"{ "time": "250", "entity": "foo", "state": 1 }"##;

    // a datum at exactly the end is accepted: it opens an interval, so a
    // datum running backwards from it is rejected
    statemap.ingest_datum(at_end.as_bytes()).expect("datum failed");
    let err = statemap.ingest_datum(before.as_bytes()).unwrap_err();
    assert!(err.message().contains("out of order"));

    // a datum beyond the end is ignored outright: it neither errs nor
    // moves the open interval
    statemap.ingest_datum(beyond.as_bytes()).expect("datum failed");
    assert!(statemap.get_rects("foo").is_empty());
}

#[test]
fn sort_natural_order() {
    let statemap = data(
        None,
        vec![
            r##"{ "time": "100", "entity": "e10", "state": 0 }"##,
            r##"{ "time": "100", "entity": "e2", "state": 0 }"##,
            r##"{ "time": "100", "entity": "e1", "state": 0 }"##,
        ],
    );

    let order = statemap.sort(None);
    let names: Vec<&str> = order
        .iter()
        .map(|&e| statemap.entities[e].name.as_str())
        .collect();
    assert_eq!(names, vec!["e1", "e2", "e10"]);
}

#[test]
fn sort_by_state_total() {
    let config: Config = Default::default();
    let mut statemap = Statemap::new(&config);
    let raw = r##"{ "start": [ 0, 0 ], "title": "Foo", "states": { "zero": {"value": 0 }, "one": {"value": 1 } } }
{ "time": "0", "entity": "a", "state": 0 }
{ "time": "100", "entity": "a", "state": 1 }
{ "time": "0", "entity": "b", "state": 0 }
{ "time": "300", "entity": "b", "state": 1 }
{ "time": "400", "entity": "a", "state": 1 }
"##;
    statemap.ingest(raw.as_bytes()).expect("ingest failed");

    // sorting by "zero" puts b (300 ns in zero) before a (100 ns)
    let sortby = statemap
        .resolve_sortby(&Some("zero".to_string()))
        .expect("resolve failed");
    let order = statemap.sort(sortby);
    let names: Vec<&str> = order
        .iter()
        .map(|&e| statemap.entities[e].name.as_str())
        .collect();
    assert_eq!(names, vec!["b", "a"]);

    // "entity" and no key at all resolve alike
    assert_eq!(
        statemap.resolve_sortby(&Some("entity".to_string())).expect("resolve"),
        None
    );
    assert!(statemap.resolve_sortby(&Some("nosuch".to_string())).is_err());
}

#[test]
fn event_counted_only() {
    let mut statemap = minimal(None);
    let ev = r##"{ "time": "5", "entity": "foo", "event": "spun up" }"##;
    statemap.ingest_datum(ev.as_bytes()).expect("event failed");
    assert_eq!(statemap.nevents, 1);
    assert!(statemap.get_rects("foo").is_empty());
}

#[test]
fn tag_redefinition_keeps_id() {
    let mut statemap = data(
        None,
        vec![r##"{ "time": "100", "entity": "foo", "state": 0, "tag": "a" }"##],
    );
    assert_eq!(statemap.tags.len(), 1);
    assert_eq!(statemap.tags[0].id, 0);

    let redef = r##"{ "state": 0, "tag": "a", "payload": "fresh" }"##;
    statemap.ingest_datum(redef.as_bytes()).expect("tagdef failed");
    assert_eq!(statemap.tags.len(), 1);
    assert_eq!(statemap.tags[0].id, 0);
    assert_eq!(statemap.tags[0].tag, "a");
}

#[test]
fn line_numbers() {
    let data: &[u8] = b"first\nsecond\n  third";
    assert_eq!(statemap::line_number(data, 0), 1);
    assert_eq!(statemap::line_number(data, 6), 2);
    // an offset on trailing whitespace reports the next non-blank line
    assert_eq!(statemap::line_number(data, 12), 3);
}

#[test]
fn error_line_and_cause() {
    let config: Config = Default::default();
    let mut statemap = Statemap::new(&config);
    let raw = "{ \"start\": [ 0, 0 ], \"title\": \"Foo\", \"states\": { \"zero\": {\"value\": 0 } } }\n{ \"time\": \"9\", \"entity\": \"f\", \"state\": 7 }\n";
    let err = statemap.ingest(raw.as_bytes()).unwrap_err();
    assert_eq!(err.message(), "illegal datum on line 2: illegal state value");

    let mut statemap = Statemap::new(&config);
    let raw = "{ \"start\": [ 0, 0 ], \"title\": \"Foo\", \"states\": { \"zero\": {\"value\": 0 } } }\n{ \"time\": \"9\", \"entity\": \"f\", \"state\": 0 }\n{ \"time\": \"4\", \"entity\": \"f\", \"state\": 0 }\n";
    let err = statemap.ingest(raw.as_bytes()).unwrap_err();
    assert_eq!(
        err.message(),
        "illegal datum on line 3: time 4 is out of order with respect to prior time 9"
    );
}

#[test]
fn ingest_deterministic() {
    let mut config: Config = Default::default();
    config.maxrect = 2;

    let raw = r##"{ "start": [ 0, 0 ], "title": "Foo", "states": { "zero": {"value": 0 }, "one": {"value": 1 } } }
{ "time": "0", "entity": "a", "state": 0 }
{ "time": "100", "entity": "a", "state": 1 }
{ "time": "200", "entity": "b", "state": 0 }
{ "time": "300", "entity": "a", "state": 0 }
{ "time": "300", "entity": "b", "state": 1 }
{ "time": "400", "entity": "a", "state": 1 }
{ "time": "500", "entity": "b", "state": 0 }
{ "time": "600", "entity": "a", "state": 0 }
"##;

    let mut first = Statemap::new(&config);
    let n1 = first.ingest(raw.as_bytes()).expect("ingest failed");
    let mut second = Statemap::new(&config);
    let n2 = second.ingest(raw.as_bytes()).expect("ingest failed");

    assert_eq!(n1, n2);
    assert_eq!(first.get_rects("a"), second.get_rects("a"));
    assert_eq!(first.get_rects("b"), second.get_rects("b"));
    assert_eq!(first.byweight.entries, second.byweight.entries);
    assert_eq!(first.tags.len(), second.tags.len());
}
