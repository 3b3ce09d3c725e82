use trackmatch::text::char_is_whitespace;
use trackmatch::json::Json;
use trackmatch::track::{get_default_tracks, Track};
use trackmatch::ytmusic::{
    checked_duration, extract_tracks_from_innertube, innertube_audio_url, item_duration_fits,
    next_piped_step, next_stream_step, offline_search, plan_search, PipedStep, SearchPlan, parse_duration_string, parse_responsive_item,
    piped_stream_audio_url, piped_streams_endpoint, response_durations_fit, search_query,
    search_results, stream_failure_message, StreamSource, StreamStep,
};

fn s(x: &str) -> Json {
    Json::Str(x.to_string())
}

fn obj(members: Vec<(&str, Json)>) -> Json {
    Json::Object(members.into_iter().map(|(k, v)| (k.to_string(), v)).collect())
}

fn arr(items: Vec<Json>) -> Json {
    Json::Array(items)
}

fn runs(texts: &[&str]) -> Json {
    obj(vec![(
        "musicResponsiveListItemFlexColumnRenderer",
        obj(vec![(
            "text",
            obj(vec![("runs", arr(texts.iter().map(|t| obj(vec![("text", s(t))])).collect()))]),
        )]),
    )])
}

fn item(video_id: &str, title: &str, second: &[&str]) -> Json {
    obj(vec![
        ("playlistItemData", obj(vec![("videoId", s(video_id))])),
        ("flexColumns", arr(vec![runs(&[title]), runs(second)])),
    ])
}

fn track(id: &str) -> Track {
    Track {
        id: id.to_string(),
        title: "t".to_string(),
        artist: "a".to_string(),
        album: None,
        duration: 1,
        cover_url: None,
        audio_url: None,
        is_explicit: None,
        is_offline: None,
    }
}

#[test]
fn durations() {
    assert_eq!(parse_duration_string("3:45"), 225);
    assert_eq!(parse_duration_string("1:02:03"), 3723);
    assert_eq!(parse_duration_string("abc"), 0);
    assert_eq!(parse_duration_string("x:30"), 30);
    assert_eq!(parse_duration_string("+1:00"), 60);
    assert_eq!(parse_duration_string("1:2:3:4"), 0);
    assert_eq!(parse_duration_string(""), 0);
    assert_eq!(parse_duration_string("-1:05"), 5);
    assert_eq!(checked_duration("307445734561825861:0"), None);
    assert_eq!(checked_duration("307445734561825860:15"), Some(u64::MAX));
}

#[test]
fn catalogue() {
    let tracks = get_default_tracks();
    let ids: Vec<&str> = tracks.iter().map(|t| t.id.as_str()).collect();
    assert_eq!(ids, vec!["1", "2", "3", "4", "5"]);
    assert_eq!(tracks[2].title, "Midnight City");
    assert_eq!(tracks[0].is_explicit, Some(true));
    assert_eq!(tracks[4].duration, 212);
}

#[test]
fn query_trimming() {
    assert_eq!(search_query("  hi there \n"), Some("hi there".to_string()));
    assert_eq!(search_query(" \t "), None);
    assert_eq!(search_query(""), None);
    assert_eq!(search_query("\u{3000}x\u{a0}"), Some("x".to_string()));
}

#[test]
fn offline_answers() {
    let found = offline_search("m83");
    assert_eq!(found.len(), 1);
    assert_eq!(found[0].id, "3");
    let aurora = offline_search("AURORA");
    assert_eq!(aurora.len(), 1);
    assert_eq!(aurora[0].id, "2");
    let many = offline_search("e");
    assert!(many.len() >= 4);
    let nothing = offline_search("zzz");
    assert_eq!(nothing.len(), 5);
}

#[test]
fn search_prefers_online_results() {
    let r = search_results("m83", Some(vec![track("x")]));
    assert_eq!(r.len(), 1);
    assert_eq!(r[0].id, "x");
    let r = search_results("m83", Some(vec![]));
    assert_eq!(r[0].id, "3");
    let r = search_results("m83", None);
    assert_eq!(r[0].id, "3");
}

#[test]
fn responsive_item_full() {
    let mut it = item("vid1", "Song", &["Artist", " • ", "Album", " • ", "3:30"]);
    if let Json::Object(ref mut m) = it {
        m.push((
            "thumbnail".to_string(),
            obj(vec![(
                "musicThumbnailRenderer",
                obj(vec![(
                    "thumbnail",
                    obj(vec![(
                        "thumbnails",
                        arr(vec![obj(vec![("url", s("small"))]), obj(vec![("url", s("big"))])]),
                    )]),
                )]),
            )]),
        ));
        m.push((
            "badges".to_string(),
            arr(vec![obj(vec![(
                "musicInlineBadgeRenderer",
                obj(vec![(
                    "accessibilityData",
                    obj(vec![("accessibilityData", obj(vec![("label", s("EXPLICIT"))]))]),
                )]),
            )])]),
        ));
    }
    assert!(item_duration_fits(&it));
    let t = parse_responsive_item(&it).unwrap();
    assert_eq!(t.id, "vid1");
    assert_eq!(t.title, "Song");
    assert_eq!(t.artist, "Artist");
    assert_eq!(t.album, Some("Album".to_string()));
    assert_eq!(t.duration, 210);
    assert_eq!(t.cover_url, Some("big".to_string()));
    assert_eq!(t.audio_url, None);
    assert_eq!(t.is_explicit, Some(true));
    assert_eq!(t.is_offline, Some(false));
}

#[test]
fn responsive_item_two_texts() {
    let t = parse_responsive_item(&item("v", "T", &["A", "4:05"])).unwrap();
    assert_eq!(t.artist, "A");
    assert_eq!(t.album, None);
    assert_eq!(t.duration, 245);
    assert_eq!(t.cover_url, Some("https://i.ytimg.com/vi/v/hqdefault.jpg".to_string()));
    assert_eq!(t.is_explicit, None);
    let u = parse_responsive_item(&item("v", "T", &["A", "Some Album"])).unwrap();
    assert_eq!(u.album, Some("Some Album".to_string()));
    assert_eq!(u.duration, 210);
}

#[test]
fn responsive_item_minimal_and_missing() {
    let only_title = obj(vec![
        ("playlistItemData", obj(vec![("videoId", s("v"))])),
        ("flexColumns", arr(vec![runs(&["T"])])),
    ]);
    let t = parse_responsive_item(&only_title).unwrap();
    assert_eq!(t.artist, "Unknown Artist");
    assert_eq!(t.duration, 210);
    let no_id = obj(vec![("flexColumns", arr(vec![runs(&["T"])]))]);
    assert!(parse_responsive_item(&no_id).is_none());
    let no_title = obj(vec![
        ("playlistItemData", obj(vec![("videoId", s("v"))])),
        ("flexColumns", arr(vec![runs(&[])])),
    ]);
    assert!(parse_responsive_item(&no_title).is_none());
}

#[test]
fn overflowing_duration_is_detected() {
    let it = item("v", "T", &["A", "307445734561825861:00"]);
    assert!(!item_duration_fits(&it));
    let ok = item("v", "T", &["A", "3:00"]);
    assert!(item_duration_fits(&ok));
}

#[test]
fn innertube_response() {
    let shelf = obj(vec![(
        "musicShelfRenderer",
        obj(vec![(
            "contents",
            arr(vec![
                obj(vec![("musicResponsiveListItemRenderer", item("a", "One", &["X"]))]),
                obj(vec![("somethingElse", s("skip"))]),
                obj(vec![("musicResponsiveListItemRenderer", item("b", "Two", &["Y", "2:00"]))]),
            ]),
        )]),
    )]);
    let root = obj(vec![(
        "contents",
        obj(vec![(
            "tabbedSearchResultsRenderer",
            obj(vec![(
                "tabs",
                arr(vec![obj(vec![(
                    "tabRenderer",
                    obj(vec![(
                        "content",
                        obj(vec![("sectionListRenderer", obj(vec![("contents", arr(vec![shelf]))]))]),
                    )]),
                )])]),
            )]),
        )]),
    )]);
    assert!(response_durations_fit(&root));
    let mut out = vec![track("before")];
    extract_tracks_from_innertube(&root, &mut out);
    let ids: Vec<&str> = out.iter().map(|t| t.id.as_str()).collect();
    assert_eq!(ids, vec!["before", "a", "b"]);
    assert_eq!(out[2].duration, 120);
    let mut none = Vec::new();
    extract_tracks_from_innertube(&obj(vec![]), &mut none);
    assert!(none.is_empty());
}

#[test]
fn pointers() {
    let doc = obj(vec![
        ("a/b", s("slash")),
        ("m~n", s("tilde")),
        ("list", arr(vec![s("zero"), s("one")])),
    ]);
    assert!(matches!(doc.pointer("/a~1b"), Some(Json::Str(x)) if x == "slash"));
    assert!(matches!(doc.pointer("/m~0n"), Some(Json::Str(x)) if x == "tilde"));
    assert!(matches!(doc.pointer("/list/1"), Some(Json::Str(x)) if x == "one"));
    assert!(doc.pointer("/list/01").is_none());
    assert!(doc.pointer("/list/+1").is_none());
    assert!(doc.pointer("/list/2").is_none());
    assert!(doc.pointer("list").is_none());
    assert!(matches!(doc.pointer(""), Some(Json::Object(_))));
}

#[test]
fn player_audio() {
    let data = obj(vec![(
        "streamingData",
        obj(vec![(
            "adaptiveFormats",
            arr(vec![
                obj(vec![("mimeType", s("video/mp4")), ("url", s("v"))]),
                obj(vec![("mimeType", s("audio/webm"))]),
                obj(vec![("mimeType", s("audio/mp4")), ("url", s("good"))]),
                obj(vec![("mimeType", s("audio/ogg")), ("url", s("later"))]),
            ]),
        )]),
    )]);
    assert_eq!(innertube_audio_url(&data), Some("good".to_string()));
    assert_eq!(innertube_audio_url(&obj(vec![])), None);
}

#[test]
fn piped_audio() {
    let json = obj(vec![(
        "audioStreams",
        arr(vec![obj(vec![("url", s("first"))]), obj(vec![("url", s("second"))])]),
    )]);
    assert_eq!(piped_stream_audio_url(&json), Some("first".to_string()));
    assert_eq!(piped_stream_audio_url(&obj(vec![("audioStreams", arr(vec![]))])), None);
    assert_eq!(
        piped_streams_endpoint(0, "abc"),
        "https://pipedapi.kavin.rocks/streams/abc"
    );
    assert_eq!(
        piped_streams_endpoint(2, "x"),
        "https://piped-api.lunar.icu/streams/x"
    );
}

#[test]
fn stream_steps() {
    assert!(matches!(next_stream_step("v", None, None), StreamStep::Ask(StreamSource::Innertube)));
    assert!(matches!(
        next_stream_step("v", Some(StreamSource::Innertube), None),
        StreamStep::Ask(StreamSource::Piped)
    ));
    assert!(matches!(
        next_stream_step("v", Some(StreamSource::Innertube), Some("u".to_string())),
        StreamStep::Resolved(u) if u == "u"
    ));
    assert!(matches!(
        next_stream_step("v9", Some(StreamSource::Piped), None),
        StreamStep::Failed(m) if m == "Unable to resolve stream URL for video v9"
    ));
    assert_eq!(stream_failure_message("id"), "Unable to resolve stream URL for video id");
}

#[test]
fn search_plans() {
    match plan_search("   ") {
        SearchPlan::Answer(ts) => assert_eq!(ts.len(), 5),
        SearchPlan::Fetch(_) => panic!("empty query must not be sent"),
    }
    match plan_search(" m83 ") {
        SearchPlan::Fetch(t) => assert_eq!(t, "m83"),
        SearchPlan::Answer(_) => panic!("query must be sent"),
    }
}

#[test]
fn piped_steps() {
    assert!(matches!(
        next_piped_step("v", 0, None),
        PipedStep::Fetch(u) if u == "https://pipedapi.kavin.rocks/streams/v"
    ));
    assert!(matches!(
        next_piped_step("v", 1, None),
        PipedStep::Fetch(u) if u == "https://api.piped.privacydev.net/streams/v"
    ));
    assert!(matches!(
        next_piped_step("v", 2, Some("a".to_string())),
        PipedStep::Resolved(u) if u == "a"
    ));
    assert!(matches!(
        next_piped_step("v", 3, None),
        PipedStep::Failed(m) if m == "Failed to resolve from piped instances"
    ));
}

#[test]
fn whitespace_classes() {
    for c in ['\t', '\n', ' ', '\u{85}', '\u{a0}', '\u{1680}', '\u{2000}', '\u{200a}', '\u{2028}', '\u{3000}'] {
        assert!(char_is_whitespace(c));
        assert!(c.is_whitespace());
    }
    for c in ['a', '\u{1c}', '\u{180e}', '\u{200b}', '.'] {
        assert_eq!(char_is_whitespace(c), c.is_whitespace());
    }
}
