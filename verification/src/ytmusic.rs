//! The YouTube Music provider's logic: reading tracks out of Innertube search
//! responses, picking audio streams out of player and Piped responses, and
//! the search and stream-resolution decisions around the network calls.
use vstd::prelude::*;
use vstd::string::StringExecFns;
use crate::json::{array_of, get, pointer, str_of, Json};
use crate::text::{
    chars_of, has_substring, lemma_split_on_nonempty, lowercase, occurs_at, occurs_at_exec, parse_u64, split_chars,
    split_on, str_lowercase, u64_or_zero, views, contains_chars, trim, trim_chars, string_of,
};
use crate::track::{
    default_tracks, get_default_tracks, opt_track, track_views, Track, TrackView,
};

verus! {

// ---------------------------------------------------------------------------
// Durations
// ---------------------------------------------------------------------------

/// The seconds that a `m:s` or `h:m:s` duration string stands for, each
/// field read as `parse::<u64>().unwrap_or(0)`; any other shape is 0.
pub open spec fn duration_total(d: Seq<char>) -> nat {
    let p = split_on(d, ':');
    if p.len() == 2 {
        u64_or_zero(p[0]) * 60 + u64_or_zero(p[1])
    } else if p.len() == 3 {
        u64_or_zero(p[0]) * 3600 + u64_or_zero(p[1]) * 60 + u64_or_zero(p[2])
    } else {
        0
    }
}

/// Appending characters other than the separator extends the last piece.
proof fn lemma_split_append_plain(pre: Seq<char>, b: Seq<char>, sep: char)
    requires
        forall|i: int| 0 <= i < b.len() ==> b[i] != sep,
    ensures
        split_on(pre + b, sep) == split_on(pre, sep).update(
            split_on(pre, sep).len() - 1,
            split_on(pre, sep).last() + b,
        ),
    decreases b.len(),
{
    lemma_split_on_nonempty(pre, sep);
    if b.len() == 0 {
        assert(pre + b =~= pre);
        assert(split_on(pre, sep).last() + b =~= split_on(pre, sep).last());
        assert(split_on(pre, sep).update(split_on(pre, sep).len() - 1, split_on(pre, sep).last())
            =~= split_on(pre, sep));
    } else {
        let b1 = b.drop_last();
        lemma_split_append_plain(pre, b1, sep);
        assert((pre + b).drop_last() =~= pre + b1);
        assert((pre + b).last() == b.last());
        let q = split_on(pre, sep);
        assert(b.last() == b[b.len() - 1]);
        assert(b.last() != sep);
        let prev = split_on(pre + b1, sep);
        assert(prev.len() == q.len());
        assert(prev.last() == q.last() + b1);
        assert((q.last() + b1).push(b.last()) =~= q.last() + b);
        assert(split_on(pre + b, sep) == prev.update(prev.len() - 1, prev.last().push(b.last())));
        assert(split_on(pre + b, sep) =~= q.update(q.len() - 1, q.last() + b));
    }
}

/// A numeral of digits reads as its value.
proof fn lemma_digits_value(d: Seq<char>)
    requires
        d.len() > 0,
        crate::text::all_digits(d),
        crate::text::decimal_value(d) <= u64::MAX,
    ensures
        u64_or_zero(d) == crate::text::decimal_value(d),
{
    assert(crate::text::is_digit(d[0]));
}

/// `m:s` reads as `m * 60 + s` seconds and `h:m:s` as
/// `h * 3600 + m * 60 + s`, for decimal fields.
pub proof fn lemma_duration_of_fields(h: Seq<char>, m: Seq<char>, sec: Seq<char>)
    requires
        h.len() > 0 && m.len() > 0 && sec.len() > 0,
        crate::text::all_digits(h) && crate::text::all_digits(m) && crate::text::all_digits(sec),
        crate::text::decimal_value(h) <= u64::MAX,
        crate::text::decimal_value(m) <= u64::MAX,
        crate::text::decimal_value(sec) <= u64::MAX,
    ensures
        duration_total(m + seq![':'] + sec) == crate::text::decimal_value(m) * 60
            + crate::text::decimal_value(sec),
        duration_total(h + seq![':'] + m + seq![':'] + sec) == crate::text::decimal_value(h) * 3600
            + crate::text::decimal_value(m) * 60 + crate::text::decimal_value(sec),
{
    assert forall|i: int| 0 <= i < h.len() implies h[i] != ':' by {
        assert(crate::text::is_digit(h[i]));
    }
    assert forall|i: int| 0 <= i < m.len() implies m[i] != ':' by {
        assert(crate::text::is_digit(m[i]));
    }
    assert forall|i: int| 0 <= i < sec.len() implies sec[i] != ':' by {
        assert(crate::text::is_digit(sec[i]));
    }
    lemma_digits_value(h);
    lemma_digits_value(m);
    lemma_digits_value(sec);
    let e = Seq::<char>::empty();
    // m:sec
    lemma_split_append_plain(e, m, ':');
    assert(e + m =~= m);
    assert(split_on(m, ':') =~= seq![m]);
    let m1 = m + seq![':'];
    assert(m1.drop_last() =~= m);
    assert(split_on(m1, ':') =~= seq![m, e]);
    lemma_split_append_plain(m1, sec, ':');
    assert(split_on(m + seq![':'] + sec, ':') =~= seq![m, sec]) by {
        assert(e + sec =~= sec);
    }
    // h:m:sec
    lemma_split_append_plain(e, h, ':');
    assert(e + h =~= h);
    let h1 = h + seq![':'];
    assert(h1.drop_last() =~= h);
    assert(split_on(h1, ':') =~= seq![h, e]);
    lemma_split_append_plain(h1, m, ':');
    assert(split_on(h1 + m, ':') =~= seq![h, m]) by {
        assert(e + m =~= m);
    }
    let h2 = h1 + m + seq![':'];
    assert(h2.drop_last() =~= h1 + m);
    assert(split_on(h2, ':') =~= seq![h, m, e]);
    lemma_split_append_plain(h2, sec, ':');
    assert(split_on(h + seq![':'] + m + seq![':'] + sec, ':') =~= seq![h, m, sec]) by {
        assert(e + sec =~= sec);
        assert(h + seq![':'] + m + seq![':'] =~= h2);
    }
}

/// `s.parse::<u64>().unwrap_or(0)`.
fn field_value(s: &Vec<char>) -> (r: u64)
    ensures
        r == u64_or_zero(s@),
{
    match parse_u64(s) {
        Some(v) => v,
        None => 0,
    }
}

/// The seconds of a duration string, or `None` when they exceed `u64::MAX`.
pub fn checked_duration(dur: &str) -> (r: Option<u64>)
    ensures
        match r {
            Some(v) => v == duration_total(dur@),
            None => duration_total(dur@) > u64::MAX,
        },
{
    let parts = split_chars(&chars_of(dur), ':');
    proof {
        lemma_split_on_nonempty(dur@, ':');
    }
    assert(views(parts@)[0] == parts@[0]@);
    if parts.len() == 2 {
        assert(views(parts@)[1] == parts@[1]@);
        let m = field_value(&parts[0]);
        let s = field_value(&parts[1]);
        match m.checked_mul(60) {
            Some(a) => a.checked_add(s),
            None => None,
        }
    } else if parts.len() == 3 {
        assert(views(parts@)[1] == parts@[1]@);
        assert(views(parts@)[2] == parts@[2]@);
        let h = field_value(&parts[0]);
        let m = field_value(&parts[1]);
        let s = field_value(&parts[2]);
        let hs = match h.checked_mul(3600) {
            Some(v) => v,
            None => {
                return None;
            },
        };
        let ms = match m.checked_mul(60) {
            Some(v) => v,
            None => {
                return None;
            },
        };
        match hs.checked_add(ms) {
            Some(t) => t.checked_add(s),
            None => None,
        }
    } else {
        Some(0)
    }
}

/// Parses a duration string such as `3:45` or `1:02:03` into seconds;
/// a field that is not a number counts as 0, and any other shape gives 0.
pub fn parse_duration_string(dur: &str) -> (r: u64)
    requires
        duration_total(dur@) <= u64::MAX,
    ensures
        r == duration_total(dur@),
{
    match checked_duration(dur) {
        Some(v) => v,
        None => 0,
    }
}


// ---------------------------------------------------------------------------
// Innertube search items
// ---------------------------------------------------------------------------

/// Whether two strings hold the same characters.
fn str_eq(a: &str, b: &str) -> (r: bool)
    ensures
        r == (a@ == b@),
{
    crate::text::chars_equal(&chars_of(a), &chars_of(b))
}

/// The views of a sequence of strings.
pub open spec fn string_views(v: Seq<String>) -> Seq<Seq<char>> {
    v.map_values(|s: String| s@)
}

/// The `text` strings of the runs, in order, without the `" • "` and
/// `" & "` separator runs.
pub open spec fn run_texts(runs: Seq<Json>) -> Seq<Seq<char>>
    decreases runs.len(),
{
    if runs.len() == 0 {
        Seq::<Seq<char>>::empty()
    } else {
        let prev = run_texts(runs.drop_last());
        match str_of(get(runs.last(), "text"@)) {
            Some(t) => if t != " • "@ && t != " & "@ {
                prev.push(t)
            } else {
                prev
            },
            None => prev,
        }
    }
}

/// The video id: `playlistItemData.videoId`, else the play button's
/// `watchEndpoint.videoId`.
pub open spec fn item_video_id(r: Json) -> Option<Seq<char>> {
    match str_of(pointer(r, "/playlistItemData/videoId"@)) {
        Some(s) => Some(s),
        None => str_of(
            pointer(
                r,
                "/overlay/musicItemThumbnailOverlayRenderer/content/musicPlayButtonRenderer/playNavigationEndpoint/watchEndpoint/videoId"@,
            ),
        ),
    }
}

/// The flex columns of an item.
pub open spec fn item_columns(r: Json) -> Option<Seq<Json>> {
    array_of(pointer(r, "/flexColumns"@))
}

/// The runs of a flex column.
pub open spec fn column_runs(c: Json) -> Option<Seq<Json>> {
    array_of(pointer(c, "/musicResponsiveListItemFlexColumnRenderer/text/runs"@))
}

/// The title: the text of the first run of the first column.
pub open spec fn item_title(cols: Seq<Json>) -> Option<Seq<char>> {
    if cols.len() == 0 {
        None
    } else {
        match column_runs(cols[0]) {
            Some(rs) => if rs.len() == 0 {
                None
            } else {
                str_of(get(rs[0], "text"@))
            },
            None => None,
        }
    }
}

/// The texts of the second column (artist, album, duration), if any.
pub open spec fn second_column_texts(cols: Seq<Json>) -> Seq<Seq<char>> {
    if cols.len() > 1 {
        match column_runs(cols[1]) {
            Some(rs) => run_texts(rs),
            None => Seq::<Seq<char>>::empty(),
        }
    } else {
        Seq::<Seq<char>>::empty()
    }
}

/// The artist: the first text of the second column, else "Unknown Artist".
pub open spec fn item_artist(tr: Seq<Seq<char>>) -> Seq<char> {
    if tr.len() > 0 {
        tr[0]
    } else {
        "Unknown Artist"@
    }
}

/// The album: the middle text of three or more; of two texts, the second
/// when it does not read as a positive duration.
pub open spec fn item_album(tr: Seq<Seq<char>>) -> Option<Seq<char>> {
    if tr.len() >= 3 {
        Some(tr[1])
    } else if tr.len() == 2 && duration_total(tr[1]) == 0 {
        Some(tr[1])
    } else {
        None
    }
}

/// The parsed duration: of the last text of three or more, or of the
/// second of two; 0 otherwise.
pub open spec fn item_duration(tr: Seq<Seq<char>>) -> nat {
    if tr.len() >= 3 {
        duration_total(tr.last())
    } else if tr.len() == 2 {
        duration_total(tr[1])
    } else {
        0
    }
}

/// The thumbnail URL used when the item has none.
pub open spec fn fallback_cover(id: Seq<char>) -> Seq<char> {
    "https://i.ytimg.com/vi/"@ + id + "/hqdefault.jpg"@
}

/// The cover: the URL of the last thumbnail, else the fallback thumbnail.
pub open spec fn item_cover(r: Json, id: Seq<char>) -> Seq<char> {
    match array_of(pointer(r, "/thumbnail/musicThumbnailRenderer/thumbnail/thumbnails"@)) {
        Some(ts) => if ts.len() > 0 {
            match str_of(get(ts.last(), "url"@)) {
                Some(u) => u,
                None => fallback_cover(id),
            }
        } else {
            fallback_cover(id)
        },
        None => fallback_cover(id),
    }
}

/// Whether a badge's accessibility label, lowercased, mentions "explicit".
pub open spec fn badge_explicit(b: Json) -> bool {
    match str_of(
        pointer(b, "/musicInlineBadgeRenderer/accessibilityData/accessibilityData/label"@),
    ) {
        Some(l) => has_substring(str_lowercase(l), "explicit"@),
        None => false,
    }
}

/// Whether the item is explicit: unknown without a badge list, else
/// whether some badge says so.
pub open spec fn item_explicit(r: Json) -> Option<bool> {
    match array_of(pointer(r, "/badges"@)) {
        Some(bs) => Some(exists|i: int| 0 <= i < bs.len() && #[trigger] badge_explicit(bs[i])),
        None => None,
    }
}

/// The video id, flex columns and title of an item, when it has all three.
pub open spec fn item_header(r: Json) -> Option<(Seq<char>, Seq<Json>, Seq<char>)> {
    match item_video_id(r) {
        Some(id) => match item_columns(r) {
            Some(cols) => match item_title(cols) {
                Some(title) => Some((id, cols, title)),
                None => None,
            },
            None => None,
        },
        None => None,
    }
}

/// The track that a `musicResponsiveListItemRenderer` describes, if it has
/// a video id, flex columns and a title. A missing or zero duration becomes
/// 210 seconds.
pub open spec fn parse_item(r: Json) -> Option<TrackView> {
    match item_header(r) {
        Some((id, cols, title)) => {
            let tr = second_column_texts(cols);
            let d = item_duration(tr);
            Some(
                TrackView {
                    id: id,
                    title: title,
                    artist: item_artist(tr),
                    album: item_album(tr),
                    duration: if d == 0 {
                        210
                    } else {
                        d as u64
                    },
                    cover_url: Some(item_cover(r, id)),
                    audio_url: None,
                    is_explicit: item_explicit(r),
                    is_offline: Some(false),
                },
            )
        },
        None => None,
    }
}

/// The item's duration, when it is parsed at all, fits in a `u64`.
pub open spec fn item_duration_ok(r: Json) -> bool {
    match item_header(r) {
        Some((id, cols, title)) => item_duration(second_column_texts(cols)) <= u64::MAX,
        None => true,
    }
}

/// The texts of the runs, separators left out.
fn collect_run_texts(runs: &Vec<Json>) -> (r: Vec<String>)
    ensures
        string_views(r@) == run_texts(runs@),
{
    let mut out: Vec<String> = Vec::new();
    let mut i: usize = 0;
    while i < runs.len()
        invariant
            i <= runs.len(),
            string_views(out@) == run_texts(runs@.take(i as int)),
        decreases runs.len() - i,
    {
        let ghost before = string_views(out@);
        assert(runs@.take(i + 1).drop_last() =~= runs@.take(i as int));
        assert(runs@.take(i + 1).last() == runs@[i as int]);
        let text = match runs[i].get("text") {
            Some(v) => v.as_str(),
            None => None,
        };
        match text {
            Some(t) => {
                if !str_eq(t, " • ") && !str_eq(t, " & ") {
                    out.push(String::from_str(t));
                    assert(string_views(out@) =~= before.push(t@));
                }
            },
            None => {},
        }
        i = i + 1;
    }
    assert(runs@.take(runs.len() as int) =~= runs@);
    out
}

/// The runs of a flex column, if it has them.
fn column_runs_exec(c: &Json) -> (r: Option<&Vec<Json>>)
    ensures
        match r {
            Some(a) => column_runs(*c) == Some(a@),
            None => column_runs(*c) is None,
        },
{
    match c.pointer("/musicResponsiveListItemFlexColumnRenderer/text/runs") {
        Some(v) => v.as_array(),
        None => None,
    }
}

/// The video id of an item.
fn video_id_exec(r: &Json) -> (res: Option<&str>)
    ensures
        match res {
            Some(s) => item_video_id(*r) == Some(s@),
            None => item_video_id(*r) is None,
        },
{
    let first = match r.pointer("/playlistItemData/videoId") {
        Some(v) => v.as_str(),
        None => None,
    };
    match first {
        Some(s) => Some(s),
        None => match r.pointer(
            "/overlay/musicItemThumbnailOverlayRenderer/content/musicPlayButtonRenderer/playNavigationEndpoint/watchEndpoint/videoId",
        ) {
            Some(v) => v.as_str(),
            None => None,
        },
    }
}

/// The title of an item, from its flex columns.
fn title_exec(cols: &Vec<Json>) -> (res: Option<&str>)
    ensures
        match res {
            Some(s) => item_title(cols@) == Some(s@),
            None => item_title(cols@) is None,
        },
{
    if cols.len() == 0 {
        return None;
    }
    match column_runs_exec(&cols[0]) {
        Some(rs) => {
            if rs.len() == 0 {
                return None;
            }
            match rs[0].get("text") {
                Some(v) => v.as_str(),
                None => None,
            }
        },
        None => None,
    }
}

/// The header of an item: video id, flex columns and title.
fn header_exec(r: &Json) -> (res: Option<(&str, &Vec<Json>, &str)>)
    ensures
        match res {
            Some((id, cols, title)) => item_header(*r) == Some((id@, cols@, title@)),
            None => item_header(*r) is None,
        },
{
    let id = match video_id_exec(r) {
        Some(s) => s,
        None => {
            return None;
        },
    };
    let cols = match r.pointer("/flexColumns") {
        Some(v) => match v.as_array() {
            Some(a) => a,
            None => {
                return None;
            },
        },
        None => {
            return None;
        },
    };
    match title_exec(cols) {
        Some(t) => Some((id, cols, t)),
        None => None,
    }
}

/// The texts of the second column.
fn second_column_exec(cols: &Vec<Json>) -> (r: Vec<String>)
    ensures
        string_views(r@) == second_column_texts(cols@),
{
    if cols.len() > 1 {
        match column_runs_exec(&cols[1]) {
            Some(rs) => collect_run_texts(rs),
            None => {
                let v: Vec<String> = Vec::new();
                assert(string_views(v@) =~= Seq::<Seq<char>>::empty());
                v
            },
        }
    } else {
        let v: Vec<String> = Vec::new();
        assert(string_views(v@) =~= Seq::<Seq<char>>::empty());
        v
    }
}

/// The cover URL of an item.
fn cover_exec(r: &Json, id: &str) -> (res: String)
    ensures
        res@ == item_cover(*r, id@),
{
    let last_url: Option<&str> = match r.pointer(
        "/thumbnail/musicThumbnailRenderer/thumbnail/thumbnails",
    ) {
        Some(v) => match v.as_array() {
            Some(ts) => {
                if ts.len() > 0 {
                    match ts[ts.len() - 1].get("url") {
                        Some(u) => u.as_str(),
                        None => None,
                    }
                } else {
                    None
                }
            },
            None => None,
        },
        None => None,
    };
    match last_url {
        Some(u) => String::from_str(u),
        None => {
            let mut s = String::from_str("https://i.ytimg.com/vi/");
            s.append(id);
            s.append("/hqdefault.jpg");
            s
        },
    }
}

/// Whether a badge marks the item explicit.
fn badge_explicit_exec(b: &Json) -> (r: bool)
    ensures
        r == badge_explicit(*b),
{
    match b.pointer("/musicInlineBadgeRenderer/accessibilityData/accessibilityData/label") {
        Some(v) => match v.as_str() {
            Some(l) => {
                let lower = lowercase(l);
                contains_chars(&chars_of(lower.as_str()), &chars_of("explicit"))
            },
            None => false,
        },
        None => false,
    }
}

/// Whether the item is explicit, if it has a badge list.
fn explicit_exec(r: &Json) -> (res: Option<bool>)
    ensures
        res == item_explicit(*r),
{
    match r.pointer("/badges") {
        Some(v) => match v.as_array() {
            Some(bs) => {
                let mut i: usize = 0;
                while i < bs.len()
                    invariant
                        i <= bs.len(),
                        array_of(pointer(*r, "/badges"@)) == Some(bs@),
                        forall|j: int| 0 <= j < i ==> !badge_explicit(#[trigger] bs@[j]),
                    decreases bs.len() - i,
                {
                    if badge_explicit_exec(&bs[i]) {
                        let ghost bsv = array_of(pointer(*r, "/badges"@)).unwrap();
                        assert(bsv == bs@);
                        assert(exists|j: int| 0 <= j < bsv.len() && #[trigger] badge_explicit(bsv[j]));
                        assert(item_explicit(*r) == Some(true));
                        return Some(true);
                    }
                    i = i + 1;
                }
                Some(false)
            },
            None => None,
        },
        None => None,
    }
}

/// Reads a track out of a `musicResponsiveListItemRenderer`: video id,
/// title, artist, album, duration (210 seconds when missing), cover URL
/// and the explicit badge. `None` when the item has no video id, no flex
/// columns or no title.
pub fn parse_responsive_item(renderer: &Json) -> (r: Option<Track>)
    requires
        item_duration_ok(*renderer),
    ensures
        opt_track(r) == parse_item(*renderer),
{
    let (id, cols, title) = match header_exec(renderer) {
        Some(h) => h,
        None => {
            return None;
        },
    };
    let tr = second_column_exec(cols);
    let ghost trv = string_views(tr@);
    let mut artist = String::from_str("Unknown Artist");
    let mut album: Option<String> = None;
    let mut duration: u64 = 0;
    if tr.len() > 0 {
        assert(trv[0] == tr@[0]@);
        artist = tr[0].clone();
    }
    if tr.len() >= 3 {
        assert(trv[1] == tr@[1]@);
        assert(trv.last() == tr@[tr.len() - 1]@);
        album = Some(tr[1].clone());
        duration = parse_duration_string(tr[tr.len() - 1].as_str());
    } else if tr.len() == 2 {
        assert(trv[1] == tr@[1]@);
        let parsed = parse_duration_string(tr[1].as_str());
        if parsed > 0 {
            duration = parsed;
        } else {
            album = Some(tr[1].clone());
        }
    }
    let cover = cover_exec(renderer, id);
    let is_explicit = explicit_exec(renderer);
    Some(
        Track {
            id: String::from_str(id),
            title: String::from_str(title),
            artist,
            album,
            duration: if duration == 0 {
                210
            } else {
                duration
            },
            cover_url: Some(cover),
            audio_url: None,
            is_explicit,
            is_offline: Some(false),
        },
    )
}


/// Whether the duration an item would be read with fits in a `u64`.
pub fn item_duration_fits(renderer: &Json) -> (r: bool)
    ensures
        r == item_duration_ok(*renderer),
{
    match header_exec(renderer) {
        Some((_id, cols, _title)) => {
            let tr = second_column_exec(cols);
            let ghost trv = string_views(tr@);
            if tr.len() >= 3 {
                assert(trv.last() == tr@[tr.len() - 1]@);
                checked_duration(tr[tr.len() - 1].as_str()).is_some()
            } else if tr.len() == 2 {
                assert(trv[1] == tr@[1]@);
                checked_duration(tr[1].as_str()).is_some()
            } else {
                true
            }
        },
        None => true,
    }
}

// ---------------------------------------------------------------------------
// Innertube search responses
// ---------------------------------------------------------------------------

/// The tracks of one search result item (none or one).
pub open spec fn item_tracks(item: Json) -> Seq<TrackView> {
    match get(item, "musicResponsiveListItemRenderer"@) {
        Some(r) => match parse_item(r) {
            Some(t) => seq![t],
            None => Seq::<TrackView>::empty(),
        },
        None => Seq::<TrackView>::empty(),
    }
}

/// The tracks of a list of items, in order.
pub open spec fn items_tracks(items: Seq<Json>) -> Seq<TrackView>
    decreases items.len(),
{
    if items.len() == 0 {
        Seq::<TrackView>::empty()
    } else {
        items_tracks(items.drop_last()) + item_tracks(items.last())
    }
}

/// The items of a section: its music shelf's contents, else its item
/// section's contents.
pub open spec fn section_items(sec: Json) -> Option<Seq<Json>> {
    array_of(
        match pointer(sec, "/musicShelfRenderer/contents"@) {
            Some(x) => Some(x),
            None => pointer(sec, "/itemSectionRenderer/contents"@),
        },
    )
}

/// The tracks of a section.
pub open spec fn section_tracks(sec: Json) -> Seq<TrackView> {
    match section_items(sec) {
        Some(items) => items_tracks(items),
        None => Seq::<TrackView>::empty(),
    }
}

/// The tracks of a list of sections, in order.
pub open spec fn sections_tracks(secs: Seq<Json>) -> Seq<TrackView>
    decreases secs.len(),
{
    if secs.len() == 0 {
        Seq::<TrackView>::empty()
    } else {
        sections_tracks(secs.drop_last()) + section_tracks(secs.last())
    }
}

/// The sections of a search response: those of the first tab of a tabbed
/// result, else those of a plain section list.
pub open spec fn response_sections(root: Json) -> Option<Seq<Json>> {
    array_of(
        match pointer(
            root,
            "/contents/tabbedSearchResultsRenderer/tabs/0/tabRenderer/content/sectionListRenderer/contents"@,
        ) {
            Some(x) => Some(x),
            None => pointer(root, "/contents/sectionListRenderer/contents"@),
        },
    )
}

/// Every track that a search response lists, in document order.
pub open spec fn response_tracks(root: Json) -> Seq<TrackView> {
    match response_sections(root) {
        Some(secs) => sections_tracks(secs),
        None => Seq::<TrackView>::empty(),
    }
}

/// The item's duration fits, if the item is a responsive list item.
pub open spec fn item_ok(item: Json) -> bool {
    match get(item, "musicResponsiveListItemRenderer"@) {
        Some(r) => item_duration_ok(r),
        None => true,
    }
}

/// Every item of the list has a duration that fits.
pub open spec fn items_ok(items: Seq<Json>) -> bool {
    forall|i: int| 0 <= i < items.len() ==> #[trigger] item_ok(items[i])
}

/// Every item of the section has a duration that fits.
pub open spec fn section_ok(sec: Json) -> bool {
    match section_items(sec) {
        Some(items) => items_ok(items),
        None => true,
    }
}

/// Every section of the list has durations that fit.
pub open spec fn sections_ok(secs: Seq<Json>) -> bool {
    forall|j: int| 0 <= j < secs.len() ==> #[trigger] section_ok(secs[j])
}

/// Every duration the response's items are read with fits in a `u64`.
pub open spec fn response_durations_ok(root: Json) -> bool {
    match response_sections(root) {
        Some(secs) => sections_ok(secs),
        None => true,
    }
}

/// The sections of a response.
fn sections_exec(root: &Json) -> (r: Option<&Vec<Json>>)
    ensures
        match r {
            Some(a) => response_sections(*root) == Some(a@),
            None => response_sections(*root) is None,
        },
{
    let contents = match root.pointer(
        "/contents/tabbedSearchResultsRenderer/tabs/0/tabRenderer/content/sectionListRenderer/contents",
    ) {
        Some(x) => Some(x),
        None => root.pointer("/contents/sectionListRenderer/contents"),
    };
    match contents {
        Some(v) => v.as_array(),
        None => None,
    }
}

/// The items of a section.
fn section_items_exec(sec: &Json) -> (r: Option<&Vec<Json>>)
    ensures
        match r {
            Some(a) => section_items(*sec) == Some(a@),
            None => section_items(*sec) is None,
        },
{
    let items = match sec.pointer("/musicShelfRenderer/contents") {
        Some(x) => Some(x),
        None => sec.pointer("/itemSectionRenderer/contents"),
    };
    match items {
        Some(v) => v.as_array(),
        None => None,
    }
}

/// Whether every duration a search response's items are read with fits in
/// a `u64` (the condition under which reading the response cannot overflow).
pub fn response_durations_fit(root: &Json) -> (r: bool)
    ensures
        r == response_durations_ok(*root),
{
    match sections_exec(root) {
        Some(secs) => {
            let mut j: usize = 0;
            while j < secs.len()
                invariant
                    j <= secs.len(),
                    response_sections(*root) == Some(secs@),
                    forall|k: int| 0 <= k < j ==> #[trigger] section_ok(secs@[k]),
                decreases secs.len() - j,
            {
                match section_items_exec(&secs[j]) {
                    Some(items) => {
                        let mut i: usize = 0;
                        while i < items.len()
                            invariant
                                i <= items.len(),
                                j < secs.len(),
                                response_sections(*root) == Some(secs@),
                                section_items(secs@[j as int]) == Some(items@),
                                forall|k: int| 0 <= k < i ==> #[trigger] item_ok(items@[k]),
                            decreases items.len() - i,
                        {
                            let fits = match items[i].get("musicResponsiveListItemRenderer") {
                                Some(r) => item_duration_fits(r),
                                None => true,
                            };
                            if !fits {
                                assert(!item_ok(items@[i as int]));
                                assert(!items_ok(items@));
                                assert(!section_ok(secs@[j as int]));
                                assert(!sections_ok(secs@));
                                return false;
                            }
                            i = i + 1;
                        }
                        assert(items_ok(items@));
                    },
                    None => {},
                }
                assert(section_ok(secs@[j as int]));
                j = j + 1;
            }
            assert(sections_ok(secs@));
            true
        },
        None => true,
    }
}

/// Appends to `out` every track listed in an Innertube search response, in
/// document order: the items of each section of the first results tab (or
/// of a plain section list) that are responsive list items and parse.
pub fn extract_tracks_from_innertube(root: &Json, out: &mut Vec<Track>)
    requires
        response_durations_ok(*root),
    ensures
        track_views(final(out)@) == track_views(old(out)@) + response_tracks(*root),
{
    let ghost start = track_views(out@);
    let secs = match sections_exec(root) {
        Some(a) => a,
        None => {
            assert(track_views(out@) =~= start + Seq::<TrackView>::empty());
            return;
        },
    };
    let mut j: usize = 0;
    assert(track_views(out@) =~= start + sections_tracks(secs@.take(0)));
    while j < secs.len()
        invariant
            j <= secs.len(),
            response_sections(*root) == Some(secs@),
            sections_ok(secs@),
            track_views(out@) == start + sections_tracks(secs@.take(j as int)),
        decreases secs.len() - j,
    {
        assert(secs@.take(j + 1).drop_last() =~= secs@.take(j as int));
        assert(secs@.take(j + 1).last() == secs@[j as int]);
        assert(section_ok(secs@[j as int]));
        let ghost mid = track_views(out@);
        match section_items_exec(&secs[j]) {
            Some(items) => {
                let mut i: usize = 0;
                assert(track_views(out@) =~= mid + items_tracks(items@.take(0)));
                while i < items.len()
                    invariant
                        i <= items.len(),
                        j < secs.len(),
                        section_items(secs@[j as int]) == Some(items@),
                        items_ok(items@),
                        track_views(out@) == mid + items_tracks(items@.take(i as int)),
                    decreases items.len() - i,
                {
                    assert(items@.take(i + 1).drop_last() =~= items@.take(i as int));
                    assert(items@.take(i + 1).last() == items@[i as int]);
                    assert(item_ok(items@[i as int]));
                    let ghost before = track_views(out@);
                    match items[i].get("musicResponsiveListItemRenderer") {
                        Some(r) => {
                            match parse_responsive_item(r) {
                                Some(t) => {
                                    out.push(t);
                                    assert(track_views(out@) =~= before.push(t@));
                                },
                                None => {},
                            }
                        },
                        None => {},
                    }
                    assert(track_views(out@) =~= mid + items_tracks(items@.take(i + 1)));
                    i = i + 1;
                }
                assert(items@.take(items.len() as int) =~= items@);
            },
            None => {},
        }
        assert(track_views(out@) =~= start + sections_tracks(secs@.take(j + 1)));
        j = j + 1;
    }
    assert(secs@.take(secs.len() as int) =~= secs@);
}

// ---------------------------------------------------------------------------
// Stream URLs
// ---------------------------------------------------------------------------

/// `s` starts with `p`.
pub open spec fn starts_with(s: Seq<char>, p: Seq<char>) -> bool {
    occurs_at(s, p, 0)
}

/// A format usable as an audio stream: a MIME type starting with `audio/`
/// (a missing type reads as empty) and a direct URL.
pub open spec fn audio_format_url(f: Json) -> Option<Seq<char>> {
    let mime = match str_of(get(f, "mimeType"@)) {
        Some(m) => m,
        None => Seq::<char>::empty(),
    };
    if starts_with(mime, "audio/"@) {
        str_of(get(f, "url"@))
    } else {
        None
    }
}

/// The URL of the first audio format of the list that has one.
pub open spec fn first_audio_url(fs: Seq<Json>) -> Option<Seq<char>>
    decreases fs.len(),
{
    if fs.len() == 0 {
        None
    } else {
        match audio_format_url(fs[0]) {
            Some(u) => Some(u),
            None => first_audio_url(fs.skip(1)),
        }
    }
}

/// The direct audio URL of an Innertube player response: the first
/// adaptive format with an `audio/` MIME type and a URL.
pub open spec fn player_audio_url(data: Json) -> Option<Seq<char>> {
    match array_of(pointer(data, "/streamingData/adaptiveFormats"@)) {
        Some(fs) => first_audio_url(fs),
        None => None,
    }
}

/// The views of an optional string.
pub open spec fn opt_view(o: Option<String>) -> Option<Seq<char>> {
    match o {
        Some(s) => Some(s@),
        None => None,
    }
}

/// The URL of a format, if it is an audio format with one.
fn format_audio_url<'a>(f: &'a Json, audio: &Vec<char>) -> (r: Option<&'a str>)
    requires
        audio@ == "audio/"@,
    ensures
        match r {
            Some(s) => audio_format_url(*f) == Some(s@),
            None => audio_format_url(*f) is None,
        },
{
    let mime: &str = match f.get("mimeType") {
        Some(m) => match m.as_str() {
            Some(s) => s,
            None => "",
        },
        None => "",
    };
    let ghost m = match str_of(get(*f, "mimeType"@)) {
        Some(m) => m,
        None => Seq::<char>::empty(),
    };
    proof {
        reveal_strlit("");
    }
    assert(mime@ == m);
    if occurs_at_exec(&chars_of(mime), audio, 0) {
        match f.get("url") {
            Some(u) => u.as_str(),
            None => None,
        }
    } else {
        None
    }
}

/// Picks the direct audio stream URL out of an Innertube player response.
pub fn innertube_audio_url(data: &Json) -> (r: Option<String>)
    ensures
        opt_view(r) == player_audio_url(*data),
{
    let fs = match data.pointer("/streamingData/adaptiveFormats") {
        Some(v) => match v.as_array() {
            Some(a) => a,
            None => {
                return None;
            },
        },
        None => {
            return None;
        },
    };
    let audio = chars_of("audio/");
    let mut i: usize = 0;
    assert(fs@.skip(0) =~= fs@);
    while i < fs.len()
        invariant
            i <= fs.len(),
            audio@ == "audio/"@,
            player_audio_url(*data) == first_audio_url(fs@.skip(i as int)),
        decreases fs.len() - i,
    {
        let ghost rest = fs@.skip(i as int);
        assert(rest[0] == fs@[i as int]);
        assert(rest.skip(1) =~= fs@.skip(i + 1));
        match format_audio_url(&fs[i], &audio) {
            Some(s) => {
                return Some(String::from_str(s));
            },
            None => {},
        }
        i = i + 1;
    }
    None
}

/// The stream picked from a player response is the URL of the first
/// adaptive format whose MIME type (empty when missing) begins with
/// `audio/` and which has a URL; with no such format there is none.
pub proof fn lemma_player_audio_url_first_audio_format(data: Json)
    ensures
        ({
            let fs = array_of(pointer(data, "/streamingData/adaptiveFormats"@));
            let audio_at = |f: Json|
                {
                    let m = match str_of(get(f, "mimeType"@)) {
                        Some(m) => m,
                        None => Seq::<char>::empty(),
                    };
                    m.len() >= "audio/"@.len() && m.subrange(0, "audio/"@.len() as int)
                        == "audio/"@ && str_of(get(f, "url"@)) is Some
                };
            match fs {
                Some(fs) => match player_audio_url(data) {
                    Some(u) => exists|i: int|
                        0 <= i < fs.len() && audio_at(#[trigger] fs[i]) && str_of(
                            get(fs[i], "url"@),
                        ) == Some(u) && forall|j: int| 0 <= j < i ==> !audio_at(#[trigger] fs[j]),
                    None => forall|i: int| 0 <= i < fs.len() ==> !audio_at(#[trigger] fs[i]),
                },
                None => player_audio_url(data) is None,
            }
        }),
{
    match array_of(pointer(data, "/streamingData/adaptiveFormats"@)) {
        Some(fs) => {
            lemma_first_audio_url(fs);
        },
        None => {},
    }
}

/// `first_audio_url` picks the first format that qualifies.
proof fn lemma_first_audio_url(fs: Seq<Json>)
    ensures
        ({
            let audio_at = |f: Json|
                {
                    let m = match str_of(get(f, "mimeType"@)) {
                        Some(m) => m,
                        None => Seq::<char>::empty(),
                    };
                    m.len() >= "audio/"@.len() && m.subrange(0, "audio/"@.len() as int)
                        == "audio/"@ && str_of(get(f, "url"@)) is Some
                };
            match first_audio_url(fs) {
                Some(u) => exists|i: int|
                    0 <= i < fs.len() && audio_at(#[trigger] fs[i]) && str_of(get(fs[i], "url"@))
                        == Some(u) && forall|j: int| 0 <= j < i ==> !audio_at(#[trigger] fs[j]),
                None => forall|i: int| 0 <= i < fs.len() ==> !audio_at(#[trigger] fs[i]),
            }
        }),
    decreases fs.len(),
{
    let audio_at = |f: Json|
        {
            let m = match str_of(get(f, "mimeType"@)) {
                Some(m) => m,
                None => Seq::<char>::empty(),
            };
            m.len() >= "audio/"@.len() && m.subrange(0, "audio/"@.len() as int) == "audio/"@
                && str_of(get(f, "url"@)) is Some
        };
    if fs.len() > 0 {
        let rest = fs.skip(1);
        lemma_first_audio_url(rest);
        assert(audio_at(fs[0]) <==> audio_format_url(fs[0]) is Some);
        match audio_format_url(fs[0]) {
            Some(u) => {
                assert(audio_at(fs[0]));
                assert(forall|j: int| 0 <= j < 0 ==> !audio_at(#[trigger] fs[j]));
            },
            None => {
                match first_audio_url(rest) {
                    Some(u) => {
                        let i = choose|i: int|
                            0 <= i < rest.len() && audio_at(#[trigger] rest[i]) && str_of(
                                get(rest[i], "url"@),
                            ) == Some(u) && forall|j: int|
                                0 <= j < i ==> !audio_at(#[trigger] rest[j]);
                        assert(fs[i + 1] == rest[i]);
                        assert forall|j: int| 0 <= j < i + 1 implies !audio_at(#[trigger] fs[j]) by {
                            if j > 0 {
                                assert(fs[j] == rest[j - 1]);
                            }
                        }
                    },
                    None => {
                        assert forall|i: int| 0 <= i < fs.len() implies !audio_at(#[trigger] fs[i]) by {
                            if i > 0 {
                                assert(fs[i] == rest[i - 1]);
                            }
                        }
                    },
                }
            },
        }
    }
}

/// The audio URL of a Piped streams response: the URL of its first audio stream.
pub open spec fn piped_audio_url(json: Json) -> Option<Seq<char>> {
    match array_of(get(json, "audioStreams"@)) {
        Some(streams) => if streams.len() > 0 {
            str_of(get(streams[0], "url"@))
        } else {
            None
        },
        None => None,
    }
}

/// Picks the audio stream URL out of a Piped streams response.
pub fn piped_stream_audio_url(json: &Json) -> (r: Option<String>)
    ensures
        opt_view(r) == piped_audio_url(*json),
{
    match json.get("audioStreams") {
        Some(v) => match v.as_array() {
            Some(streams) => {
                if streams.len() == 0 {
                    return None;
                }
                match streams[0].get("url") {
                    Some(u) => match u.as_str() {
                        Some(s) => Some(String::from_str(s)),
                        None => None,
                    },
                    None => None,
                }
            },
            None => None,
        },
        None => None,
    }
}

/// The Piped API instances, tried in this order.
pub open spec fn piped_instances() -> Seq<Seq<char>> {
    seq![
        "https://pipedapi.kavin.rocks"@,
        "https://api.piped.privacydev.net"@,
        "https://piped-api.lunar.icu"@,
    ]
}

/// The number of Piped API instances.
pub const PIPED_INSTANCE_COUNT: usize = 3;

/// The streams endpoint of the `index`-th Piped instance for a video.
pub fn piped_streams_endpoint(index: usize, video_id: &str) -> (r: String)
    requires
        index < PIPED_INSTANCE_COUNT,
    ensures
        r@ == piped_instances()[index as int] + "/streams/"@ + video_id@,
{
    let base = match index {
        0 => "https://pipedapi.kavin.rocks",
        1 => "https://api.piped.privacydev.net",
        _ => "https://piped-api.lunar.icu",
    };
    let mut s = String::from_str(base);
    s.append("/streams/");
    s.append(video_id);
    s
}

/// What to do next while asking the Piped instances for a stream URL.
pub enum PipedStep {
    /// Request this streams endpoint.
    Fetch(String),
    /// An instance gave this audio URL.
    Resolved(String),
    /// No instance gave a URL; the error message.
    Failed(String),
}

/// Decides the next step of the Piped lookup from the number of instances
/// asked so far and the audio URL the last one gave: the instances are asked
/// in order, the first URL found wins, and after the last one fails the
/// lookup fails.
pub fn next_piped_step(video_id: &str, asked: usize, found: Option<String>) -> (r: PipedStep)
    ensures
        match found {
            Some(url) => r == PipedStep::Resolved(url),
            None => if asked < PIPED_INSTANCE_COUNT {
                r matches PipedStep::Fetch(u) && u@ == piped_instances()[asked as int]
                    + "/streams/"@ + video_id@
            } else {
                r matches PipedStep::Failed(m) && m@ == "Failed to resolve from piped instances"@
            },
        },
{
    match found {
        Some(url) => PipedStep::Resolved(url),
        None => {
            if asked < PIPED_INSTANCE_COUNT {
                PipedStep::Fetch(piped_streams_endpoint(asked, video_id))
            } else {
                PipedStep::Failed(String::from_str("Failed to resolve from piped instances"))
            }
        },
    }
}

/// The message given when no source yields a stream URL.
pub fn stream_failure_message(video_id: &str) -> (r: String)
    ensures
        r@ == "Unable to resolve stream URL for video "@ + video_id@,
{
    let mut s = String::from_str("Unable to resolve stream URL for video ");
    s.append(video_id);
    s
}

/// The sources of a stream URL, in the order they are tried.
#[derive(PartialEq, Eq, Structural, Clone, Copy, Debug)]
pub enum StreamSource {
    /// The Innertube Android player API.
    Innertube,
    /// The Piped API instances.
    Piped,
}

/// What to do next while resolving a stream URL.
pub enum StreamStep {
    /// Ask this source.
    Ask(StreamSource),
    /// A source gave this URL.
    Resolved(String),
    /// No source gave a URL; the error message.
    Failed(String),
}

/// Decides the next step of stream resolution from the last source asked
/// (none at first) and what it gave: Innertube first, then Piped; the first
/// URL found wins; when both fail, an error naming the video.
pub fn next_stream_step(video_id: &str, asked: Option<StreamSource>, found: Option<String>) -> (r:
    StreamStep)
    ensures
        match asked {
            None => r == StreamStep::Ask(StreamSource::Innertube),
            Some(src) => match found {
                Some(url) => r == StreamStep::Resolved(url),
                None => match src {
                    StreamSource::Innertube => r == StreamStep::Ask(StreamSource::Piped),
                    StreamSource::Piped => r matches StreamStep::Failed(m) && m@
                        == "Unable to resolve stream URL for video "@ + video_id@,
                },
            },
        },
{
    match asked {
        None => StreamStep::Ask(StreamSource::Innertube),
        Some(src) => match found {
            Some(url) => StreamStep::Resolved(url),
            None => match src {
                StreamSource::Innertube => StreamStep::Ask(StreamSource::Piped),
                StreamSource::Piped => StreamStep::Failed(stream_failure_message(video_id)),
            },
        },
    }
}


// ---------------------------------------------------------------------------
// Search
// ---------------------------------------------------------------------------

/// The query to send: the trimmed query, `None` when nothing is left.
pub fn search_query(query: &str) -> (r: Option<String>)
    ensures
        match r {
            Some(t) => trim(query@).len() > 0 && t@ == trim(query@),
            None => trim(query@).len() == 0,
        },
{
    let t = trim_chars(&chars_of(query));
    if t.len() == 0 {
        None
    } else {
        Some(string_of(&t))
    }
}

/// The first step of a search.
pub enum SearchPlan {
    /// Answer at once with these tracks.
    Answer(Vec<Track>),
    /// Ask the online search for this trimmed query.
    Fetch(String),
}

/// Decides how to start a search: an empty query (after trimming white
/// space) is answered with the whole catalogue; any other query is sent,
/// trimmed, to the online search.
pub fn plan_search(query: &str) -> (r: SearchPlan)
    ensures
        match r {
            SearchPlan::Answer(ts) => trim(query@).len() == 0 && track_views(ts@)
                == default_tracks(),
            SearchPlan::Fetch(t) => trim(query@).len() > 0 && t@ == trim(query@),
        },
{
    match search_query(query) {
        Some(t) => SearchPlan::Fetch(t),
        None => SearchPlan::Answer(get_default_tracks()),
    }
}

/// A track matches a query when its lowercased title or artist contains
/// the lowercased query.
pub open spec fn track_matches(t: TrackView, q: Seq<char>) -> bool {
    has_substring(str_lowercase(t.title), str_lowercase(q)) || has_substring(
        str_lowercase(t.artist),
        str_lowercase(q),
    )
}

/// The tracks that match the query, in order.
pub open spec fn matching_tracks(ts: Seq<TrackView>, q: Seq<char>) -> Seq<TrackView>
    decreases ts.len(),
{
    if ts.len() == 0 {
        Seq::<TrackView>::empty()
    } else {
        let prev = matching_tracks(ts.drop_last(), q);
        if track_matches(ts.last(), q) {
            prev.push(ts.last())
        } else {
            prev
        }
    }
}

/// The offline answer to a query: the catalogue tracks that match it, or
/// the whole catalogue when none does.
pub open spec fn offline_results(q: Seq<char>) -> Seq<TrackView> {
    let found = matching_tracks(default_tracks(), q);
    if found.len() > 0 {
        found
    } else {
        default_tracks()
    }
}

/// The views of an optional list of tracks.
pub open spec fn opt_tracks(o: Option<Vec<Track>>) -> Option<Seq<TrackView>> {
    match o {
        Some(v) => Some(track_views(v@)),
        None => None,
    }
}

/// The answer to a (trimmed, non-empty) query given what the online search
/// returned (`None` when it failed): the online tracks when there are any,
/// else the offline answer.
pub open spec fn search_outcome(trimmed: Seq<char>, fetched: Option<Seq<TrackView>>) -> Seq<
    TrackView,
> {
    match fetched {
        Some(v) => if v.len() > 0 {
            v
        } else {
            offline_results(trimmed)
        },
        None => offline_results(trimmed),
    }
}

/// Whether a track's title or artist contains the lowercased query.
fn track_matches_exec(t: &Track, q_lower: &Vec<char>, ghost_q: Ghost<Seq<char>>) -> (r: bool)
    requires
        q_lower@ == str_lowercase(ghost_q@),
    ensures
        r == track_matches(t@, ghost_q@),
{
    let title = lowercase(t.title.as_str());
    if contains_chars(&chars_of(title.as_str()), q_lower) {
        return true;
    }
    let artist = lowercase(t.artist.as_str());
    contains_chars(&chars_of(artist.as_str()), q_lower)
}

/// The catalogue tracks whose title or artist contains the query (compared
/// lowercase), or the whole catalogue when none does.
pub fn offline_search(trimmed: &str) -> (r: Vec<Track>)
    ensures
        track_views(r@) == offline_results(trimmed@),
{
    let q_lower = chars_of(lowercase(trimmed).as_str());
    let mut pool = get_default_tracks();
    let ghost all = default_tracks();
    let mut kept: Vec<Track> = Vec::new();
    let mut k: usize = 0;
    assert(track_views(pool@) =~= all.skip(0));
    assert(track_views(kept@) =~= matching_tracks(all.take(0), trimmed@));
    while pool.len() > 0
        invariant
            all == default_tracks(),
            k <= all.len(),
            q_lower@ == str_lowercase(trimmed@),
            track_views(pool@) == all.skip(k as int),
            track_views(kept@) == matching_tracks(all.take(k as int), trimmed@),
        decreases pool.len(),
    {
        let ghost before = track_views(kept@);
        let ghost rest = track_views(pool@);
        assert(rest.len() == pool@.len());
        assert(k < all.len());
        assert(rest[0] == all[k as int]);
        assert(rest[0] == pool@[0]@);
        let ghost old_pool = pool@;
        let t = pool.remove(0);
        assert(t@ == all[k as int]);
        assert(pool@ =~= old_pool.subrange(1, old_pool.len() as int));
        assert forall|m: int| 0 <= m < pool@.len() implies #[trigger] track_views(pool@)[m]
            == all.skip(k + 1)[m] by {
            assert(pool@[m] == old_pool[m + 1]);
            assert(rest[m + 1] == old_pool[m + 1]@);
        }
        assert(track_views(pool@) =~= all.skip(k + 1));
        assert(all.take(k + 1).drop_last() =~= all.take(k as int));
        assert(all.take(k + 1).last() == all[k as int]);
        if track_matches_exec(&t, &q_lower, Ghost(trimmed@)) {
            kept.push(t);
            assert(track_views(kept@) =~= before.push(all[k as int]));
        }
        k = k + 1;
    }
    assert(all.take(k as int) =~= all);
    if kept.len() > 0 {
        kept
    } else {
        get_default_tracks()
    }
}

/// Decides the answer to a trimmed query from the online search result
/// (`None` when the request failed): the online tracks if there are any,
/// else the catalogue tracks matching the query, else the whole catalogue.
pub fn search_results(trimmed: &str, fetched: Option<Vec<Track>>) -> (r: Vec<Track>)
    ensures
        track_views(r@) == search_outcome(trimmed@, opt_tracks(fetched)),
{
    match fetched {
        Some(v) => {
            if v.len() > 0 {
                v
            } else {
                offline_search(trimmed)
            }
        },
        None => offline_search(trimmed),
    }
}

/// Every track of the matching list comes from the list searched.
proof fn lemma_matching_from(ts: Seq<TrackView>, q: Seq<char>)
    ensures
        forall|i: int|
            0 <= i < matching_tracks(ts, q).len() ==> ts.contains(
                #[trigger] matching_tracks(ts, q)[i],
            ),
    decreases ts.len(),
{
    if ts.len() > 0 {
        let p = ts.drop_last();
        lemma_matching_from(p, q);
        let m = matching_tracks(ts, q);
        assert forall|i: int| 0 <= i < m.len() implies ts.contains(#[trigger] m[i]) by {
            if i < matching_tracks(p, q).len() {
                let x = m[i];
                assert(x == matching_tracks(p, q)[i]);
                assert(p.contains(x));
                let j = choose|j: int| 0 <= j < p.len() && p[j] == x;
                assert(ts[j] == x);
            } else {
                assert(m[i] == ts[ts.len() - 1]);
            }
        }
    }
}

/// A search never comes back empty: a failed or empty online search falls
/// back to the catalogue.
pub proof fn lemma_search_never_empty(trimmed: Seq<char>, fetched: Option<Seq<TrackView>>)
    ensures
        search_outcome(trimmed, fetched).len() > 0,
{
}

/// Without online results, every track offered comes from the catalogue,
/// and each one matches the query unless none in the catalogue does.
pub proof fn lemma_offline_results_from_catalogue(q: Seq<char>)
    ensures
        forall|i: int|
            0 <= i < offline_results(q).len() ==> default_tracks().contains(
                #[trigger] offline_results(q)[i],
            ),
        matching_tracks(default_tracks(), q).len() > 0 ==> forall|i: int|
            0 <= i < offline_results(q).len() ==> track_matches(#[trigger] offline_results(q)[i], q),
{
    lemma_matching_from(default_tracks(), q);
    lemma_matching_match(default_tracks(), q);
    assert forall|i: int| 0 <= i < offline_results(q).len() implies default_tracks().contains(
        #[trigger] offline_results(q)[i],
    ) by {
        if matching_tracks(default_tracks(), q).len() == 0 {
            assert(default_tracks()[i] == offline_results(q)[i]);
        }
    }
}

/// Every track of the matching list matches the query.
proof fn lemma_matching_match(ts: Seq<TrackView>, q: Seq<char>)
    ensures
        forall|i: int|
            0 <= i < matching_tracks(ts, q).len() ==> track_matches(
                #[trigger] matching_tracks(ts, q)[i],
                q,
            ),
    decreases ts.len(),
{
    if ts.len() > 0 {
        let p = ts.drop_last();
        lemma_matching_match(p, q);
        let m = matching_tracks(ts, q);
        assert forall|i: int| 0 <= i < m.len() implies track_matches(#[trigger] m[i], q) by {
            if i < matching_tracks(p, q).len() {
                assert(m[i] == matching_tracks(p, q)[i]);
            }
        }
    }
}

/// Every catalogue track that matches is kept.
proof fn lemma_matching_complete(ts: Seq<TrackView>, q: Seq<char>)
    ensures
        forall|i: int|
            0 <= i < ts.len() && track_matches(ts[i], q) ==> matching_tracks(ts, q).contains(
                #[trigger] ts[i],
            ),
    decreases ts.len(),
{
    if ts.len() > 0 {
        let p = ts.drop_last();
        lemma_matching_complete(p, q);
        let m = matching_tracks(ts, q);
        assert forall|i: int| 0 <= i < ts.len() && track_matches(ts[i], q) implies m.contains(
            #[trigger] ts[i],
        ) by {
            if i < p.len() {
                assert(p[i] == ts[i]);
                let pm = matching_tracks(p, q);
                assert(pm.contains(p[i]));
                let j = choose|j: int| 0 <= j < pm.len() && pm[j] == p[i];
                assert(m[j] == pm[j]);
            } else {
                assert(m[m.len() - 1] == ts[i]);
            }
        }
    }
}

/// The offline search compares lowercased text: when some catalogue track's
/// lowercased title or artist contains the lowercased query, the answer
/// holds exactly the catalogue tracks for which that is so (in catalogue
/// order, each at most once); when none does, it is the whole catalogue.
pub proof fn lemma_offline_search_keeps_lowercase_matches(q: Seq<char>)
    ensures
        (exists|i: int|
            0 <= i < default_tracks().len() && (has_substring(
                str_lowercase(#[trigger] default_tracks()[i].title),
                str_lowercase(q),
            ) || has_substring(str_lowercase(default_tracks()[i].artist), str_lowercase(q))))
            ==> (forall|i: int|
            0 <= i < default_tracks().len() ==> (offline_results(q).contains(
                #[trigger] default_tracks()[i],
            ) <==> (has_substring(str_lowercase(default_tracks()[i].title), str_lowercase(q))
                || has_substring(str_lowercase(default_tracks()[i].artist), str_lowercase(q))))),
        (forall|i: int|
            0 <= i < default_tracks().len() ==> !has_substring(
                str_lowercase(#[trigger] default_tracks()[i].title),
                str_lowercase(q),
            ) && !has_substring(str_lowercase(default_tracks()[i].artist), str_lowercase(q)))
            ==> offline_results(q) == default_tracks(),
        forall|i: int|
            0 <= i < offline_results(q).len() ==> default_tracks().contains(
                #[trigger] offline_results(q)[i],
            ),
{
    let d = default_tracks();
    lemma_matching_from(d, q);
    lemma_matching_match(d, q);
    lemma_matching_complete(d, q);
    lemma_offline_results_from_catalogue(q);
    let m = matching_tracks(d, q);
    if m.len() == 0 {
        assert forall|i: int| 0 <= i < d.len() implies !has_substring(
            str_lowercase(#[trigger] d[i].title),
            str_lowercase(q),
        ) && !has_substring(str_lowercase(d[i].artist), str_lowercase(q)) by {
            if track_matches(d[i], q) {
                assert(m.contains(d[i]));
            }
        }
    } else {
        assert forall|i: int| 0 <= i < d.len() implies (offline_results(q).contains(#[trigger] d[i])
            <==> (has_substring(str_lowercase(d[i].title), str_lowercase(q)) || has_substring(
            str_lowercase(d[i].artist),
            str_lowercase(q),
        ))) by {
            if m.contains(d[i]) {
                let j = choose|j: int| 0 <= j < m.len() && m[j] == d[i];
                assert(track_matches(m[j], q));
            }
            if track_matches(d[i], q) {
                assert(m.contains(d[i]));
            }
        }
        assert(track_matches(m[0], q));
        assert(d.contains(m[0]));
    }
}

/// The second column's texts (separators dropped) give artist, album and
/// duration: the artist is the first text; with three or more texts the
/// album is the second and the duration is read from the last one, however
/// many there are; with two texts, a second text that reads as a positive
/// number of seconds is the duration, any other second text is the album.
pub proof fn lemma_item_fields_from_second_column(r: Json)
    requires
        item_duration_ok(r),
    ensures
        item_header(r) matches Some((id, cols, title)) ==> {
            let tr = second_column_texts(cols);
            &&& parse_item(r) matches Some(t)
            &&& t.id == id
            &&& t.title == title
            &&& tr.len() >= 1 ==> t.artist == tr[0]
            &&& tr.len() == 0 ==> t.artist == "Unknown Artist"@
            &&& tr.len() >= 3 ==> t.album == Some(tr[1])
            &&& tr.len() >= 3 && duration_total(tr[tr.len() - 1]) > 0 ==> t.duration
                == duration_total(tr[tr.len() - 1])
            &&& tr.len() >= 3 && duration_total(tr[tr.len() - 1]) == 0 ==> t.duration == 210
            &&& tr.len() == 2 && duration_total(tr[1]) > 0 ==> t.duration == duration_total(tr[1])
                && t.album is None
            &&& tr.len() == 2 && duration_total(tr[1]) == 0 ==> t.duration == 210 && t.album
                == Some(tr[1])
            &&& tr.len() <= 1 ==> t.duration == 210 && t.album is None
        },
{
}

/// Every track read from a search item has a positive duration, an unknown
/// audio URL, a cover URL, and is not offline.
pub proof fn lemma_parsed_track_shape(r: Json)
    requires
        item_duration_ok(r),
    ensures
        parse_item(r) matches Some(t) ==> t.duration > 0 && t.audio_url is None
            && t.cover_url is Some && t.is_offline == Some(false),
{
}

} // verus!
