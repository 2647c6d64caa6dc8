use statemap::Config;
use statemap::Statemap;

fn metadata(config: Option<&Config>, metadata: &str) -> Statemap {
    let mut statemap;

    match config {
        Some(config) => {
            statemap = Statemap::new(&config);
        }
        None => {
            let config: Config = Default::default();
            statemap = Statemap::new(&config);
        }
    }

    match statemap.ingest_metadata(metadata.as_bytes()) {
        Err(err) => {
            panic!("metadata incorrectly failed: {:?}", err);
        }
        Ok(_) => statemap,
    }
}

fn minimal(config: Option<&Config>) -> Statemap {
    metadata(
        config,
        r##"{
        "start": [ 0, 0 ],
        "title": "Foo",
        "states": {
            "zero": {"value": 0 },
            "one": {"value": 1 }
        }
    }"##,
    )
}

fn data(config: Option<&Config>, data: Vec<&str>) -> Statemap {
    let mut statemap = minimal(config);

    for datum in data {
        match statemap.ingest_datum(datum.as_bytes()) {
            Err(err) => {
                panic!("data incorrectly failed: {:?}", err);
            }
            Ok(_) => {}
        }
    }

    statemap
}

fn bad_metadata(metadata: &str, expected: &str) {
    let config: Config = Default::default();
    let mut statemap = Statemap::new(&config);

    match statemap.ingest_metadata(metadata.as_bytes()) {
        Err(err) => {
            let errmsg = err.message().to_string();

            if errmsg.find(expected).is_none() {
                panic!(
                    "error ('{}') did not contain '{}' as expected",
                    errmsg, expected
                );
            }
        }
        Ok(_) => {
            panic!("bad metadata succeeded!");
        }
    }
}

fn bad_datum(operand: Option<Statemap>, datum: &str, expected: &str) {
    let mut statemap = match operand {
        Some(statemap) => statemap,
        None => metadata(
            None,
            r##"{
                "start": [ 0, 0 ],
                "title": "Foo",
                "states": {
                    "zero": {"value": 0 },
                    "one": {"value": 1 }
                }
            }"##,
        ),
    };

    match statemap.ingest_datum(datum.as_bytes()) {
        Err(err) => {
            let errmsg = err.message().to_string();

            if errmsg.find(expected).is_none() {
                panic!(
                    "error ('{}') did not contain '{}' as expected",
                    errmsg, expected
                );
            }
        }
        Ok(_) => {
            panic!("bad datum succeeded!");
        }
    }
}

fn bad_statemap(raw: &str, expected: &str) {
    let config: Config = Default::default();
    let mut statemap = Statemap::new(&config);

    match statemap.ingest(raw.as_bytes()) {
        Err(err) => {
            let errmsg = format!("{}\n", err.message());

            if errmsg.find(expected).is_none() {
                panic!(
                    "error ('{}') did not contain '{}' as expected",
                    errmsg, expected
                );
            }
        }
        Ok(_) => {
            panic!("bad statemap succeeded!");
        }
    }
}

fn good_statemap(raw: &str) -> Statemap {
    let mut config: Config = Default::default();
    config.notags = false;

    let mut statemap = Statemap::new(&config);

    match statemap.ingest(raw.as_bytes()) {
        Err(err) => {
            panic!("statemap failed: {}", err.message());
        }
        Ok(_) => statemap,
    }
}

#[test]
fn good_minimal() {
    metadata(
        None,
        r##"{
        "start": [ 0, 0 ],
        "title": "Foo",
        "states": {
            "zero": {"value": 0 }
        }
    }"##,
    );
}

#[test]
fn bad_title_missing() {
    bad_metadata(
        r##"{
        "start": [ 0, 0 ],
        "states": {
            "zero": {"value": 0 }
        }
    }"##,
        "missing field `title`",
    );
}

#[test]
fn bad_start_missing() {
    bad_metadata(
        r##"{
        "title": "Foo",
        "states": {
            "zero": {"value": 0 }
        }
    }"##,
        "missing field `start`",
    );
}

#[test]
fn bad_start_badval() {
    bad_metadata(
        r##"{
        "start": [ -1, 0 ],
        "title": "Foo",
        "states": {
            "zero": {"value": 0 }
        }
    }"##,
        "invalid value: integer `-1`",
    );
}

#[test]
fn bad_start_tooshort() {
    bad_metadata(
        r##"{
        "start": [ 0 ],
        "title": "Foo",
        "states": {
            "zero": {"value": 0 }
        }
    }"##,
        "\"start\" property must be a two element array",
    );
}

#[test]
fn bad_start_toolong() {
    bad_metadata(
        r##"{
        "start": [ 0, 0, 3 ],
        "title": "Foo",
        "states": {
            "zero": {"value": 0 }
        }
    }"##,
        "\"start\" property must be a two element array",
    );
}

#[test]
fn bad_states_missing() {
    bad_metadata(
        r##"{
        "start": [ 0, 0 ],
        "title": "Foo"
    }"##,
        "missing field `states`",
    );
}

#[test]
fn bad_states_badmap() {
    bad_metadata(
        r##"{
        "start": [ 0, 0 ],
        "title": "Foo",
        "states": 123
    }"##,
        "expected a map",
    );
}

#[test]
fn bad_states_value_missing() {
    bad_metadata(
        r##"{
        "start": [ 0, 0 ],
        "title": "Foo",
        "states": {
            "zero": {}
        }
    }"##,
        "missing field `value`",
    );
}

#[test]
fn bad_states_value_bad() {
    bad_metadata(
        r##"{
        "start": [ 0, 0 ],
        "title": "Foo",
        "states": {
            "zero": {"value": -1 }
        }
    }"##,
        "invalid value: integer `-1`",
    );
}

#[test]
fn bad_states_value_skipped1() {
    bad_metadata(
        r##"{
        "start": [ 0, 0 ],
        "title": "Foo",
        "states": {
            "zero": {"value": 0 },
            "one": {"value": 2 }
        }
    }"##,
        "state \"one\" has value (2) that exceeds maximum",
    );
}

#[test]
fn bad_states_value_toohigh() {
    bad_metadata(
        r##"{
        "start": [ 0, 0 ],
        "title": "Foo",
        "states": {
            "zero": {"value": 1 },
            "one": {"value": 2 }
        }
    }"##,
        "state \"one\" has value (2) that exceeds maximum",
    );
}

#[test]
fn bad_states_value_duplicate() {
    bad_metadata(
        r##"{
        "start": [ 0, 0 ],
        "title": "Foo",
        "states": {
            "zero": {"value": 1 },
            "one": {"value": 1 }
        }
    }"##,
        "has value (1) that conflicts",
    );
}

#[test]
fn bad_line_basic() {
    bad_statemap(
        "{ \"start\": [ 0, 0 ], \"title\": \"Foo\", \"states\": { \"zero\": {\"value\": 0 } } }\n{ \"time\": \"1\", \"entity\": \"f\", \"state\": 0 }\n{ \"this\": \"is no payload\" }\n",
        "illegal datum on line 3",
    );
}

#[test]
fn bad_line_whitespace() {
    bad_statemap(
        "{ \"start\": [ 0, 0 ], \"title\": \"Foo\", \"states\": { \"zero\": {\"value\": 0 } } }\n{ \"time\": \"1\", \"entity\": \"f\", \"state\": 0 }\n   \n   { \"this\": \"is no payload\" }\n",
        "illegal datum on line 4",
    );
}

#[test]
fn bad_line_newline() {
    bad_statemap(
        "{ \"start\": [ 0, 0 ], \"title\": \"Foo\", \"states\": { \"zero\": {\"value\": 0 } } }\n{ \"time\": \"1\",\n\"entity\": \"f\", \"state\": 0 }\n\n\n{ \"this\": \"is no payload\" }\n",
        "illegal datum on line 6",
    );
}

#[test]
fn basic() {
    let statemap = metadata(
        None,
        r##"{
        "start": [ 1528417173, 255882937 ],
        "title": "Foo",
        "host": "HA8S7MRD2",
        "entityKind": "Process",
        "states": {
            "on-cpu": {"value": 0, "color": "#2e9107" },
            "off-cpu-waiting": {"value": 1, "color": "#f9f9f9" },
            "off-cpu-semop": {"value": 2, "color": "#FF5733" },
            "off-cpu-blocked": {"value": 3, "color": "#C70039" },
            "off-cpu-zfs-read": {"value": 4, "color": "#FFC300" },
            "off-cpu-zfs-write": {"value": 5, "color": "#338AFF" },
            "off-cpu-zil-commit": {"value": 6, "color": "#66FFCC" },
            "off-cpu-tx-delay": {"value": 7, "color": "#e1ff00" },
            "off-cpu-dead": {"value": 8, "color": "#E0E0E0" }
        }
    }"##,
    );
    assert_eq!(statemap.states.len(), 9);
    assert_eq!(statemap.states[0].name, "on-cpu");
    assert_eq!(statemap.states[0].color, Some("#2e9107".to_string()));
    assert_eq!(statemap.states[1].name, "off-cpu-waiting");
    assert_eq!(statemap.states[1].color, Some("#f9f9f9".to_string()));
    assert_eq!(statemap.states[8].name, "off-cpu-dead");
}

#[test]
fn basic_datum() {
    let mut _statemap = data(
        None,
        vec![r##"{ "time": "156683", "entity": "foo", "state": 0 }"##],
    );
}

#[test]
fn basic_description() {
    let statemap = data(
        None,
        vec![
            r##"{ "time": "156683", "entity": "foo", "state": 0 }"##,
            r##"{ "entity": "foo", "description": "This is a foo!" }"##,
        ],
    );

    assert_eq!(
        statemap.get_description("foo"),
        Some("This is a foo!".to_string())
    );
}

#[test]
fn bad_datum_badtime() {
    bad_datum(
        None,
        r##"
        { "time": 156683, "entity": "foo", "state": 0 }
    "##,
        "unrecognized payload",
    );
}

#[test]
fn bad_datum_badtime_float() {
    bad_datum(
        None,
        r##"
        { "time": "156683.12", "entity": "foo", "state": 0 }
    "##,
        "unrecognized payload",
    );
}

#[test]
fn bad_datum_nostate() {
    bad_datum(
        None,
        r##"
        { "time": "156683", "entity": "foo" }
    "##,
        "unrecognized payload",
    );
}

#[test]
fn bad_datum_badstate() {
    bad_datum(
        None,
        r##"
        { "time": "156683", "entity": "foo", "state": 200 }
    "##,
        "illegal state value",
    );
}

#[test]
fn bad_datum_backwards() {
    let statemap = data(
        None,
        vec![r##"{ "time": "156683", "entity": "foo", "state": 0 }"##],
    );

    bad_datum(
        Some(statemap),
        r##"
        { "time": "156682", "entity": "foo", "state": 1 }
    "##,
        "out of order with respect to prior time",
    );
}

#[test]
fn basic_data() {
    let statemap = data(
        None,
        vec![
            r##"{ "time": "100000", "entity": "foo", "state": 0 }"##,
            r##"{ "time": "200000", "entity": "foo", "state": 1 }"##,
            r##"{ "time": "300000", "entity": "foo", "state": 0 }"##,
            r##"{ "time": "400000", "entity": "foo", "state": 1 }"##,
            r##"{ "time": "500000", "entity": "foo", "state": 0 }"##,
            r##"{ "time": "600000", "entity": "foo", "state": 1 }"##,
        ],
    );

    assert!(statemap.verify());
}

#[test]
fn tag_basic() {
    let statemap = good_statemap(
        r##"{ "start": [ 0, 0 ], "title": "Tagged", "states": { "zero": {"value": 0 }, "one": {"value": 1 } } }
{ "state": 0, "tag": "a", "note": "first tag" }
{ "time": "100", "entity": "foo", "state": 0, "tag": "a" }
{ "time": "200", "entity": "foo", "state": 1, "tag": "b" }
{ "time": "300", "entity": "foo", "state": 0, "tag": "a" }
"##,
    );
    println!("{:?}", statemap.tags);
    assert!(statemap.verify());
    assert_eq!(statemap.tags.len(), 2);
    assert_eq!(statemap.tags[0].tag, "a");
    assert_eq!(statemap.tags[0].id, 0);
    assert_eq!(statemap.tags[1].tag, "b");
    assert_eq!(statemap.tags[1].id, 1);
}

#[test]
fn tag_redefined() {
    let statemap = good_statemap(
        r##"{ "start": [ 0, 0 ], "title": "Tagged", "states": { "zero": {"value": 0 }, "one": {"value": 1 } } }
{ "state": 0, "tag": "a", "note": "original definition" }
{ "time": "100", "entity": "foo", "state": 0, "tag": "a" }
{ "state": 0, "tag": "a", "note": "redefined" }
{ "time": "200", "entity": "foo", "state": 1, "tag": "b" }
"##,
    );
    println!("{:?}", statemap.tags);
    assert!(statemap.verify());
    assert_eq!(statemap.tags.len(), 2);
    assert_eq!(statemap.tags[0].tag, "a");
    assert_eq!(statemap.tags[0].id, 0);
}
