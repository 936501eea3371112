use digicompass::locations::geojson::Feature;
use digicompass::locations::json::Expect;
use digicompass::locations::load::{
    build_tree, file_optional, load_tree, must_build, read_exact, source_error, FileByteIter, FileTimes, LoadPlan,
    ReadExactError, Timestamp, TreeBuilder,
};
use digicompass::locations::source::SourceReader;
use digicompass::locations::{IoError, JsonError, LocParseError, LocTree, NameData};

fn parse_source(source: &[u8]) -> (Vec<Feature>, Result<(), LocParseError>) {
    let mut reader = SourceReader::new();
    let mut features = vec![];
    for b in source {
        match reader.accept(*b) {
            Ok(Some(place)) => features.push(place),
            Ok(None) => {}
            Err(e) => return (features, Err(e)),
        }
    }
    (features, reader.finish())
}

fn names(source: &str) -> (Vec<String>, Result<(), LocParseError>) {
    let (features, end) = parse_source(source.as_bytes());
    (features.into_iter().map(|f| f.name).collect(), end)
}

fn failure(source: &str) -> LocParseError {
    parse_source(source.as_bytes()).1.unwrap_err()
}

fn expected(x: Expect) -> LocParseError {
    LocParseError::from(x)
}

fn place(name: &str, long: &str, lat: &str) -> String {
    format!(
        "{{\"type\":\"Feature\",\"properties\":{{\"name\":\"{}\",\"pop\":[1,{{}}]}},\"geometry\":{{\"type\":\"Point\",\"coordinates\":[{},{}]}}}}",
        name, long, lat
    )
}

fn list(places: &[String]) -> String {
    format!("{{\"type\":\"FeatureCollection\",\"features\":[{}]}}", places.join(","))
}

#[test]
fn places_are_read() {
    let source = list(&[place("Home", "-122.5", "37.75"), place("M\u{fc}nchen", " 1e1 ", " -0.5 ")]);
    let (features, end) = parse_source(source.as_bytes());
    assert_eq!(end, Ok(()));
    assert_eq!(features.len(), 2);
    assert_eq!(features[0].name, "Home");
    assert_eq!(features[0].lat, "37.75");
    assert_eq!(features[0].long, "-122.5");
    assert_eq!(features[1].name, "M\u{fc}nchen");
    assert_eq!(features[1].lat, "-0.5");
    assert_eq!(features[1].long, "1e1");
    for f in &features {
        assert!(f.lat.parse::<f64>().is_ok());
        assert!(f.long.parse::<f64>().is_ok());
    }
}

#[test]
fn escapes_are_resolved() {
    let source = list(&[place("a\\u00e9\\n\\\"b", "0", "0")]);
    assert_eq!(names(&source), (vec!["a\u{e9}\n\"b".to_string()], Ok(())));
}

#[test]
fn blanks_do_not_matter() {
    let source = " \t\r\n{ \"features\" : [ { \"geometry\" : { \"coordinates\" : [ 1 , 2 ] } , \"properties\" : { \"name\" : \"X\" } } ] } \n";
    assert_eq!(names(source), (vec!["X".to_string()], Ok(())));
}

#[test]
fn no_places() {
    assert_eq!(names("{}"), (vec![], Ok(())));
    assert_eq!(names("{\"features\":[]}"), (vec![], Ok(())));
    assert_eq!(names("{\"other\":[1,2,{\"features\":null}],\"b\":true}"), (vec![], Ok(())));
}

#[test]
fn place_without_name_is_passed_over() {
    let source = list(&[
        "{\"geometry\":{\"coordinates\":[1,2]}}".to_string(),
        "{}".to_string(),
        place("B", "3", "4"),
    ]);
    assert_eq!(names(&source), (vec!["B".to_string()], Ok(())));
}

#[test]
fn place_without_point_is_refused() {
    let source = list(&[
        place("A", "1", "2"),
        "{\"properties\":{\"name\":\"B\"}}".to_string(),
        place("C", "1", "2"),
    ]);
    assert_eq!(names(&source), (vec!["A".to_string()], Err(LocParseError::MissingProperty)));
}

#[test]
fn coordinates_that_are_none() {
    for (long, lat) in [("\"1\"", "2"), ("1", "x"), ("-", "2"), ("1.", "2"), ("1", "2e")] {
        let source = list(&[place("A", long, lat)]);
        assert_eq!(failure(&source), LocParseError::InvalidCoords);
    }
    assert_eq!(failure("{\"features\":[{\"geometry\":{\"coordinates\":["), LocParseError::InvalidCoords);
    let source = list(&[place("A", "1", "2,3")]);
    assert_eq!(failure(&source), expected(Expect::CommaOrEnd));
    let source = list(&[place("A", "01", "2")]);
    assert_eq!(failure(&source), expected(Expect::CommaOrEnd));
}

#[test]
fn text_that_is_no_list() {
    assert_eq!(failure(""), expected(Expect::Value));
    assert_eq!(failure("[]"), expected(Expect::Value));
    assert_eq!(failure("{"), expected(Expect::ValueOrEnd));
    assert_eq!(failure("{1"), expected(Expect::String));
    assert_eq!(failure("{\"a\" 1}"), expected(Expect::Colon));
    assert_eq!(failure("{\"a\":"), expected(Expect::Value));
    assert_eq!(failure("{\"a\":1"), expected(Expect::CommaOrEnd));
    assert_eq!(failure("{\"a\":1 \"b\":2}"), expected(Expect::CommaOrEnd));
    assert_eq!(failure("{\"a\":1,}"), expected(Expect::String));
    assert_eq!(failure("{\"a\":1,"), expected(Expect::Value));
    assert_eq!(failure("{} {}"), expected(Expect::Eof));
    assert_eq!(failure("{\"features\":{}}"), expected(Expect::Value));
    assert_eq!(failure("{\"features\":[1]}"), expected(Expect::Value));
    assert_eq!(failure("{\"features\":[{\"properties\":1}]}"), expected(Expect::Value));
    assert_eq!(failure("{\"features\":[{\"properties\":{\"name\":1}}]}"), expected(Expect::Value));
    assert_eq!(failure("{\"features\":[{\"geometry\":[]}]}"), expected(Expect::Value));
    assert_eq!(
        failure("{\"features\":[{\"geometry\":{\"coordinates\":1}}]}"),
        expected(Expect::Value)
    );
}

#[test]
fn strings_and_values_that_are_none() {
    let string = |text: &str| LocParseError::JsonError(JsonError::Str(text.to_string()));
    assert_eq!(failure("{\"a"), string("unterminated string"));
    assert_eq!(failure("{\"a\n\":1}"), string("invalid string control character"));
    assert_eq!(failure("{\"a\":\"\\x\"}"), string("unknown escape sequence type"));
    assert_eq!(failure("{\"a\":\"\n\"}"), string("invalid string control character"));
    assert_eq!(failure("{\"a\":\"b"), string("unterminated string"));
    assert_eq!(failure("{\"a\":-}"), LocParseError::JsonError(JsonError::Num));
    assert_eq!(failure("{\"a\":}"), expected(Expect::Value));
    assert_eq!(failure("{\"a\":[1,2}"), expected(Expect::CommaOrEnd));
    assert_eq!(failure("{\"a\":[1,]}"), expected(Expect::Value));
    assert_eq!(failure("{\"a\":["), expected(Expect::ValueOrEnd));
    assert_eq!(failure("{\"a\":[1"), expected(Expect::CommaOrEnd));
    assert_eq!(failure("{\"a\":[1,"), expected(Expect::Value));
    assert_eq!(failure("{\"a\":{1"), expected(Expect::String));
    assert_eq!(failure("{\"a\":{\"b\" 1}}"), expected(Expect::Colon));
    assert_eq!(failure("{\"a\":{\"b\":"), expected(Expect::Value));
}

#[test]
fn bytes_that_are_no_text() {
    assert_eq!(parse_source(b"{\"a\":\"\xff\"}").1, Ok(()));
    assert!(matches!(
        parse_source(b"{\"\xff\":1}").1,
        Err(LocParseError::JsonError(JsonError::Str(_)))
    ));
}

#[test]
fn nested_values_are_passed_over() {
    let source = "{\"a\":[[1,{\"b\":[\"]\\\"\"]}],{}],\"features\":[{\"bbox\":[],\"properties\":{\"x\":{\"name\":\"N\"},\"name\":\"Y\"},\"geometry\":{\"coordinates\":[1,2]}}]}";
    assert_eq!(names(source), (vec!["Y".to_string()], Ok(())));
}

#[test]
fn last_of_two_lists_and_names_counts() {
    let place = "{\"properties\":{\"name\":\"A\",\"name\":\"B\"},\"geometry\":{\"coordinates\":[1,2],\"coordinates\":[3,4]}}";
    let source = format!("{{\"features\":[{}],\"features\":[{}]}}", place, place);
    let (features, end) = parse_source(source.as_bytes());
    assert_eq!(end, Ok(()));
    assert_eq!(features.len(), 2);
    assert_eq!(features[1].name, "B");
    assert_eq!(features[1].long, "3");
}

#[test]
fn names_are_laid_out_one_behind_the_other() {
    let long = "x".repeat(300);
    let source = list(&[place("Home", "1", "2"), place(&long, "3", "4"), place("", "5", "6"), place("\u{e4}", "7", "8")]);
    let (tree, end) = build_tree(source.as_bytes());
    assert_eq!(end, Ok(()));
    let data: Vec<NameData> = tree.nodes.iter().map(|n| n.data).collect();
    assert_eq!(
        data,
        vec![
            NameData { name_offset: 0, name_len: 4 },
            NameData { name_offset: 4, name_len: 255 },
            NameData { name_offset: 259, name_len: 0 },
            NameData { name_offset: 259, name_len: 2 },
        ]
    );
    assert_eq!(tree.nodes[3].lat, "8");
    assert_eq!(tree.nodes[3].long, "7");
    assert_eq!(tree.strings.len(), 261);
    let read = |d: &NameData| {
        let from = d.name_offset as usize;
        LocTree::name(d, Ok(tree.strings[from..from + d.name_len as usize].to_vec())).unwrap()
    };
    assert_eq!(read(&data[0]), "Home");
    assert_eq!(read(&data[1]), "x".repeat(255));
    assert_eq!(read(&data[2]), "");
    assert_eq!(read(&data[3]), "\u{e4}");
}

#[test]
fn names_before_a_failure_are_kept() {
    let source = list(&[place("A", "1", "2"), "1".to_string()]);
    let (tree, end) = build_tree(source.as_bytes());
    assert_eq!(end, Err(expected(Expect::Value)));
    assert_eq!(tree.strings, b"A".to_vec());
    assert_eq!(tree.nodes.len(), 1);
}

#[test]
fn places_come_out_as_soon_as_they_are_whole() {
    let source = list(&[place("Home", "1", "2"), place("B", "3", "4")]);
    let mut builder = TreeBuilder::new();
    let mut entries = vec![];
    for (i, b) in source.bytes().enumerate() {
        if let Some(entry) = builder.accept(b).unwrap() {
            entries.push((i, entry));
        }
    }
    assert_eq!(builder.finish(), Ok(()));
    assert_eq!(entries.len(), 2);
    let first = source.find("},{").unwrap();
    assert_eq!(entries[0].0, first);
    assert_eq!(entries[0].1.name, b"Home".to_vec());
    assert_eq!(entries[0].1.node.data, NameData { name_offset: 0, name_len: 4 });
    assert_eq!(entries[1].1.node.data, NameData { name_offset: 4, name_len: 1 });
    assert_eq!(entries[1].1.node.lat, "4");
}

#[test]
fn failed_read_is_no_end() {
    for (text, e) in [
        ("", Expect::Value),
        ("{", Expect::String),
        ("{}", Expect::Eof),
        ("{\"features\":[", Expect::Value),
        ("{\"a\":1", Expect::CommaOrEnd),
        ("{\"features\":[]", Expect::CommaOrEnd),
    ] {
        let mut builder = TreeBuilder::new();
        for b in text.bytes() {
            assert_eq!(builder.accept(b), Ok(None));
        }
        assert_eq!(builder.fail(), expected(e), "{}", text);
    }
    let mut reader = SourceReader::new();
    for b in "{\"a".bytes() {
        assert_eq!(reader.accept(b), Ok(None));
    }
    assert_eq!(
        reader.fail(),
        LocParseError::JsonError(JsonError::Str("unterminated string".to_string()))
    );
}

#[test]
fn failed_read_within_a_place() {
    let broken = |text: &str| {
        let mut reader = SourceReader::new();
        for b in text.bytes() {
            assert_eq!(reader.accept(b), Ok(None));
        }
        reader.fail()
    };
    let string = LocParseError::JsonError(JsonError::Str("unterminated string".to_string()));
    assert_eq!(broken("{\"x\":[\"a"), string);
    assert_eq!(broken("{\"features\":[{\"x"), string);
    let point = "{\"features\":[{\"geometry\":{\"coordinates\":[";
    for number in ["", "-", "1", "-12.5", "1e", "1e5", "1,2", "0,-7."] {
        assert_eq!(broken(&format!("{}{}", point, number)), LocParseError::InvalidCoords, "{}", number);
    }
    for number in ["0", "-0", "1 ", "1,2 "] {
        assert_eq!(broken(&format!("{}{}", point, number)), expected(Expect::CommaOrEnd), "{}", number);
    }
    assert_eq!(broken("{\"features\":[{\"x\":12"), expected(Expect::CommaOrEnd));
    assert_eq!(broken("{\"features\":[{"), expected(Expect::String));
}

#[test]
fn kept_tree_that_cannot_be_read_is_built_anew() {
    for try_cache in [false, true] {
        let plan = LoadPlan { source_time: time(50, 2, 0), try_cache };
        assert!(must_build(&plan, false));
        assert_eq!(must_build(&plan, true), !try_cache);
    }
}

#[test]
fn text_that_is_nested_deep() {
    let nested = |n: usize| format!("{{\"a\":{}{}}}", "[".repeat(n), "]".repeat(n));
    assert_eq!(names(&nested(128)), (vec![], Ok(())));
    assert_eq!(names(&nested(129)), (vec![], Ok(())));
    assert_eq!(names(&nested(1_000_000)), (vec![], Ok(())));
    assert_eq!(
        names(&format!("{{\"type\":\"FeatureCollection\",\"features\":[],\"x\":{}{}}}", "[".repeat(129), "]".repeat(129))),
        (vec![], Ok(()))
    );
    assert_eq!(failure(&format!("{{\"a\":{}", "[".repeat(1_000_000))), expected(Expect::ValueOrEnd));
    let brackets = "[".repeat(1000);
    assert_eq!(names(&format!("{{\"a\":\"{}\"}}", brackets)), (vec![], Ok(())));
    let inner = |n: usize| {
        format!("{{\"features\":[{{\"x\":{}{}}}]}}", "{\"y\":[".repeat(n), "]}".repeat(n))
    };
    assert_eq!(names(&inner(63)), (vec![], Ok(())));
    assert_eq!(names(&inner(10_000)), (vec![], Ok(())));
}

#[test]
fn names_that_are_cut() {
    let data = NameData { name_offset: 0, name_len: 4 };
    assert_eq!(LocTree::name(&data, Ok(b"abc".to_vec())), Err(LocParseError::InvalidCacheStrLen));
    assert_eq!(LocTree::name(&data, Ok(vec![])), Err(LocParseError::InvalidCacheStrLen));
    assert_eq!(LocTree::name(&data, Ok(b"abcd".to_vec())), Ok("abcd".to_string()));
    assert_eq!(LocTree::name(&data, Ok(b"abc\xc3".to_vec())), Ok("abc\u{fffd}".to_string()));
    assert_eq!(
        LocTree::name(&data, Err(IoError::Other("InvalidOffset".to_string()))),
        Err(LocParseError::IoError(IoError::Other("InvalidOffset".to_string())))
    );
}

fn time(year: u8, month: u8, seconds: u8) -> Timestamp {
    Timestamp {
        year_since_1970: year,
        zero_indexed_month: month,
        zero_indexed_day: 3,
        hours: 4,
        minutes: 5,
        seconds,
    }
}

fn times(ctime: Timestamp, mtime: Timestamp) -> FileTimes {
    FileTimes { ctime, mtime }
}

#[test]
fn kept_tree_is_tried_while_the_times_are_equal() {
    let source = times(time(50, 1, 2), time(50, 2, 0));
    let plan = |try_cache| Ok(LoadPlan { source_time: time(50, 2, 0), try_cache });
    assert_eq!(load_tree(Err(IoError::NotFound), Ok(source)), plan(false));
    assert_eq!(load_tree(Ok(times(time(50, 2, 0), time(50, 2, 0))), Ok(source)), plan(true));
    assert_eq!(load_tree(Ok(times(time(10, 2, 0), time(50, 2, 0))), Ok(source)), plan(true));
    assert_eq!(load_tree(Ok(times(time(50, 2, 1), time(50, 2, 0))), Ok(source)), plan(false));
    assert_eq!(load_tree(Ok(times(time(50, 1, 0), time(50, 1, 0))), Ok(source)), plan(false));
    assert_eq!(times(time(51, 0, 0), time(50, 11, 59)).touched(), time(51, 0, 0));
}

#[test]
fn files_that_cannot_be_found() {
    let ok = || Ok(times(time(1, 1, 1), time(1, 1, 1)));
    let other = || IoError::Other("x".to_string());
    assert_eq!(load_tree(ok(), Err(IoError::NotFound)), Err(LocParseError::SourceMissing));
    assert_eq!(load_tree(ok(), Err(other())), Err(LocParseError::IoError(other())));
    assert_eq!(load_tree(Err(other()), ok()), Err(LocParseError::IoError(other())));
    assert_eq!(load_tree(Err(IoError::EndOfFile), Err(IoError::NotFound)), Err(LocParseError::IoError(IoError::EndOfFile)));
    assert_eq!(file_optional(Ok(1)), Ok(Some(1)));
    assert_eq!(file_optional::<u8>(Err(IoError::NotFound)), Ok(None));
    assert_eq!(file_optional::<u8>(Err(IoError::EndOfFile)), Err(IoError::EndOfFile));
    assert_eq!(source_error(IoError::NotFound), LocParseError::SourceMissing);
    assert_eq!(source_error(IoError::EndOfFile), LocParseError::IoError(IoError::EndOfFile));
}

fn gather(reads: Vec<Result<Vec<u8>, IoError>>) -> (Vec<u8>, Vec<LocParseError>) {
    let mut bytes = FileByteIter::new();
    let mut reads = reads.into_iter();
    let (mut out, mut failures) = (vec![], vec![]);
    loop {
        if bytes.wants_block() {
            match reads.next() {
                Some(read) => {
                    if let Err(e) = bytes.fill(read) {
                        failures.push(e);
                    }
                }
                None => return (out, failures),
            }
        } else {
            match bytes.next() {
                Some(b) => out.push(b),
                None => return (out, failures),
            }
        }
    }
}

#[test]
fn bytes_come_out_in_order() {
    let (out, failures) = gather(vec![Ok(vec![1, 2]), Ok(vec![3]), Ok(vec![]), Ok(vec![4])]);
    assert_eq!(out, vec![1, 2, 3]);
    assert_eq!(failures, vec![]);
    let (out, _) = gather(vec![Ok(vec![1, 2]), Err(IoError::EndOfFile), Ok(vec![4])]);
    assert_eq!(out, vec![1, 2]);
    let (out, failures) = gather(vec![Ok(vec![1]), Err(IoError::Other("x".to_string())), Ok(vec![4])]);
    assert_eq!(out, vec![1, 4]);
    assert_eq!(failures, vec![LocParseError::IoError(IoError::Other("x".to_string()))]);
}

#[test]
fn reads_of_exactly_so_many_bytes() {
    assert_eq!(read_exact(Ok(4), 4), Ok(()));
    assert_eq!(read_exact(Ok(3), 4), Err(ReadExactError::UnexpectedEof));
    assert_eq!(read_exact(Err(IoError::EndOfFile), 4), Err(ReadExactError::Other(IoError::EndOfFile)));
    assert_eq!(LocParseError::from(ReadExactError::UnexpectedEof), LocParseError::InvalidCacheStrLen);
    assert_eq!(
        LocParseError::from(ReadExactError::Other(IoError::NotFound)),
        LocParseError::IoError(IoError::NotFound)
    );
}

#[test]
fn location_messages() {
    let texts = [
        (LocParseError::from(IoError::NotFound), "I/O error while loading/saving tree: NotFound"),
        (LocParseError::from(IoError::EndOfFile), "I/O error while loading/saving tree: EndOfFile"),
        (LocParseError::from(IoError::Other("X".to_string())), "I/O error while loading/saving tree: X"),
        (LocParseError::PostcardError("P".to_string()), "Postcard error while loading/saving tree: P"),
        (expected(Expect::Value), "JSON error while loading/saving tree: value expected"),
        (expected(Expect::ValueOrEnd), "JSON error while loading/saving tree: value or end of sequence expected"),
        (expected(Expect::CommaOrEnd), "JSON error while loading/saving tree: comma or end of sequence expected"),
        (expected(Expect::String), "JSON error while loading/saving tree: string expected"),
        (expected(Expect::Colon), "JSON error while loading/saving tree: colon expected"),
        (expected(Expect::Eof), "JSON error while loading/saving tree: end of file expected"),
        (LocParseError::from(JsonError::Str("L".to_string())), "JSON error while loading/saving tree: L"),
        (LocParseError::from(JsonError::Num), "JSON error while loading/saving tree: expected digit"),
        (LocParseError::MissingProperty, "location node is missing a property"),
        (LocParseError::InvalidCoords, "location node coordinates are not valid"),
        (LocParseError::InvalidCacheStrLen, "wrong location name length (past EOF)"),
        (LocParseError::SourceMissing, "missing locations source file"),
    ];
    for (e, text) in texts {
        assert_eq!(e.message(), text);
    }
}
