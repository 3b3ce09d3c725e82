//! Track metadata and the curated catalogue used when no search results
//! can be had.
use vstd::prelude::*;
use vstd::string::StringExecFns;

verus! {

/// A playable track.
pub struct Track {
    /// The provider's identifier (a video id for YouTube Music).
    pub id: String,
    pub title: String,
    pub artist: String,
    pub album: Option<String>,
    /// Length in seconds.
    pub duration: u64,
    pub cover_url: Option<String>,
    pub audio_url: Option<String>,
    pub is_explicit: Option<bool>,
    pub is_offline: Option<bool>,
}

/// A track with its strings taken as character sequences.
pub struct TrackView {
    pub id: Seq<char>,
    pub title: Seq<char>,
    pub artist: Seq<char>,
    pub album: Option<Seq<char>>,
    pub duration: u64,
    pub cover_url: Option<Seq<char>>,
    pub audio_url: Option<Seq<char>>,
    pub is_explicit: Option<bool>,
    pub is_offline: Option<bool>,
}

/// The characters of an optional string.
pub open spec fn opt_chars(o: Option<String>) -> Option<Seq<char>> {
    match o {
        Some(s) => Some(s@),
        None => None,
    }
}

impl View for Track {
    type V = TrackView;

    open spec fn view(&self) -> TrackView {
        TrackView {
            id: self.id@,
            title: self.title@,
            artist: self.artist@,
            album: opt_chars(self.album),
            duration: self.duration,
            cover_url: opt_chars(self.cover_url),
            audio_url: opt_chars(self.audio_url),
            is_explicit: self.is_explicit,
            is_offline: self.is_offline,
        }
    }
}

/// The views of a sequence of tracks.
pub open spec fn track_views(ts: Seq<Track>) -> Seq<TrackView> {
    ts.map_values(|t: Track| t@)
}

/// The view of an optional track.
pub open spec fn opt_track(o: Option<Track>) -> Option<TrackView> {
    match o {
        Some(t) => Some(t@),
        None => None,
    }
}

/// The curated catalogue, in order.
pub open spec fn default_tracks() -> Seq<TrackView> {
    seq![
        TrackView {
            id: "1"@,
            title: "Starlight"@,
            artist: "The Nocturnals"@,
            album: Some("Astral Memories"@),
            duration: 225,
            cover_url: Some("https://images.unsplash.com/photo-1518709268805-4e9042af9f23?w=300&auto=format&fit=crop&q=80"@),
            audio_url: Some("https://www.soundhelix.com/examples/mp3/SoundHelix-Song-1.mp3"@),
            is_explicit: Some(true),
            is_offline: Some(false),
        },
        TrackView {
            id: "2"@,
            title: "Echoes"@,
            artist: "Aurora"@,
            album: Some("Parallel Horizons"@),
            duration: 252,
            cover_url: Some("https://images.unsplash.com/photo-1509198397868-475647b2a1e5?w=300&auto=format&fit=crop&q=80"@),
            audio_url: Some("https://www.soundhelix.com/examples/mp3/SoundHelix-Song-2.mp3"@),
            is_explicit: Some(false),
            is_offline: Some(false),
        },
        TrackView {
            id: "3"@,
            title: "Midnight City"@,
            artist: "M83"@,
            album: Some("Hurry Up, We Are Dreaming"@),
            duration: 244,
            cover_url: Some("https://images.unsplash.com/photo-1470225620780-dba8ba36b745?w=300&auto=format&fit=crop&q=80"@),
            audio_url: Some("https://www.soundhelix.com/examples/mp3/SoundHelix-Song-3.mp3"@),
            is_explicit: Some(false),
            is_offline: Some(false),
        },
        TrackView {
            id: "4"@,
            title: "After Dark"@,
            artist: "Mr.Kitty"@,
            album: Some("Time"@),
            duration: 258,
            cover_url: Some("https://images.unsplash.com/photo-1511671782779-c97d3d27a1d4?w=300&auto=format&fit=crop&q=80"@),
            audio_url: Some("https://www.soundhelix.com/examples/mp3/SoundHelix-Song-4.mp3"@),
            is_explicit: Some(false),
            is_offline: Some(false),
        },
        TrackView {
            id: "5"@,
            title: "Resonance"@,
            artist: "HOME"@,
            album: Some("Odyssey"@),
            duration: 212,
            cover_url: Some("https://images.unsplash.com/photo-1493225457124-a3eb161ffa5f?w=300&auto=format&fit=crop&q=80"@),
            audio_url: Some("https://www.soundhelix.com/examples/mp3/SoundHelix-Song-5.mp3"@),
            is_explicit: Some(false),
            is_offline: Some(false),
        },
    ]
}

/// The curated default tracks, each with a fallback audio stream.
pub fn get_default_tracks() -> (r: Vec<Track>)
    ensures
        track_views(r@) == default_tracks(),
{
    let mut tracks: Vec<Track> = Vec::new();
    tracks.push(
        Track {
            id: String::from_str("1"),
            title: String::from_str("Starlight"),
            artist: String::from_str("The Nocturnals"),
            album: Some(String::from_str("Astral Memories")),
            duration: 225,
            cover_url: Some(
                String::from_str(
                    "https://images.unsplash.com/photo-1518709268805-4e9042af9f23?w=300&auto=format&fit=crop&q=80",
                ),
            ),
            audio_url: Some(String::from_str("https://www.soundhelix.com/examples/mp3/SoundHelix-Song-1.mp3")),
            is_explicit: Some(true),
            is_offline: Some(false),
        },
    );
    tracks.push(
        Track {
            id: String::from_str("2"),
            title: String::from_str("Echoes"),
            artist: String::from_str("Aurora"),
            album: Some(String::from_str("Parallel Horizons")),
            duration: 252,
            cover_url: Some(
                String::from_str(
                    "https://images.unsplash.com/photo-1509198397868-475647b2a1e5?w=300&auto=format&fit=crop&q=80",
                ),
            ),
            audio_url: Some(String::from_str("https://www.soundhelix.com/examples/mp3/SoundHelix-Song-2.mp3")),
            is_explicit: Some(false),
            is_offline: Some(false),
        },
    );
    tracks.push(
        Track {
            id: String::from_str("3"),
            title: String::from_str("Midnight City"),
            artist: String::from_str("M83"),
            album: Some(String::from_str("Hurry Up, We Are Dreaming")),
            duration: 244,
            cover_url: Some(
                String::from_str(
                    "https://images.unsplash.com/photo-1470225620780-dba8ba36b745?w=300&auto=format&fit=crop&q=80",
                ),
            ),
            audio_url: Some(String::from_str("https://www.soundhelix.com/examples/mp3/SoundHelix-Song-3.mp3")),
            is_explicit: Some(false),
            is_offline: Some(false),
        },
    );
    tracks.push(
        Track {
            id: String::from_str("4"),
            title: String::from_str("After Dark"),
            artist: String::from_str("Mr.Kitty"),
            album: Some(String::from_str("Time")),
            duration: 258,
            cover_url: Some(
                String::from_str(
                    "https://images.unsplash.com/photo-1511671782779-c97d3d27a1d4?w=300&auto=format&fit=crop&q=80",
                ),
            ),
            audio_url: Some(String::from_str("https://www.soundhelix.com/examples/mp3/SoundHelix-Song-4.mp3")),
            is_explicit: Some(false),
            is_offline: Some(false),
        },
    );
    tracks.push(
        Track {
            id: String::from_str("5"),
            title: String::from_str("Resonance"),
            artist: String::from_str("HOME"),
            album: Some(String::from_str("Odyssey")),
            duration: 212,
            cover_url: Some(
                String::from_str(
                    "https://images.unsplash.com/photo-1493225457124-a3eb161ffa5f?w=300&auto=format&fit=crop&q=80",
                ),
            ),
            audio_url: Some(String::from_str("https://www.soundhelix.com/examples/mp3/SoundHelix-Song-5.mp3")),
            is_explicit: Some(false),
            is_offline: Some(false),
        },
    );
    assert(track_views(tracks@) =~= default_tracks());
    tracks
}

} // verus!
