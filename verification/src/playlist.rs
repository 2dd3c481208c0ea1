//! Track lists resolved from an outside catalogue, and their mapping to
//! search queries. The catalogue client itself performs I/O and lives
//! outside the library; these types carry its results as plain values.

use vstd::prelude::*;
use vstd::string::StringExecFns;

verus! {

/// A track from the outside catalogue.
#[derive(Debug, Clone)]
pub struct SpotifyTrack {
    pub id: String,
    pub name: String,
    pub artists: Vec<String>,
    pub album: String,
    pub duration_ms: u64,
}

/// A playlist from the outside catalogue.
#[derive(Debug, Clone)]
pub struct SpotifyPlaylist {
    pub id: String,
    pub name: String,
    pub tracks: Vec<SpotifyTrack>,
}

/// A file matched to a track by the search pipeline.
#[derive(Debug, Clone)]
pub struct MatchedFile {
    pub username: String,
    pub filename: String,
    pub size: u64,
    pub bitrate: Option<u32>,
}

/// One playlist track with its search query and its match, if found.
#[derive(Debug, Clone)]
pub struct SoulseekPlaylistTrack {
    pub spotify_track: SpotifyTrack,
    pub search_query: String,
    pub matched_file: Option<MatchedFile>,
}

/// A playlist prepared for searching and downloading.
#[derive(Debug, Clone)]
pub struct SoulseekPlaylist {
    pub name: String,
    pub tracks: Vec<SoulseekPlaylistTrack>,
}

/// The characters of a track's search query: the first artist, a
/// space, the track name.
pub open spec fn search_query_chars(t: SpotifyTrack) -> Seq<char> {
    (if t.artists@.len() > 0 {
        t.artists@[0]@
    } else {
        Seq::<char>::empty()
    }) + " "@ + t.name@
}

/// The artists joined with commas.
pub open spec fn joined_artists(artists: Seq<Seq<char>>) -> Seq<char>
    decreases artists.len(),
{
    if artists.len() == 0 {
        Seq::empty()
    } else if artists.len() == 1 {
        artists[0]
    } else {
        artists[0] + ", "@ + joined_artists(artists.drop_first())
    }
}

/// The characters of a track's display name: the artists joined with
/// commas, a dash, the track name.
pub open spec fn display_name_chars(t: SpotifyTrack) -> Seq<char> {
    joined_artists(t.artists@.map_values(|a: String| a@)) + " - "@ + t.name@
}

impl SpotifyTrack {
    /// The query sent to the network for this track.
    pub fn to_search_query(&self) -> (r: String)
        ensures
            r@ == search_query_chars(*self),
    {
        let mut q = if self.artists.len() > 0 {
            self.artists[0].clone()
        } else {
            String::new()
        };
        q.append(" ");
        q.append(self.name.as_str());
        q
    }

    /// The human-readable name of this track.
    pub fn display_name(&self) -> (r: String)
        ensures
            r@ == display_name_chars(*self),
    {
        let mut joined = String::new();
        let mut i: usize = 0;
        while i < self.artists.len()
            invariant
                i <= self.artists@.len(),
                joined@ == joined_prefix(self.artists@.map_values(|a: String| a@), i as int),
            decreases self.artists@.len() - i,
        {
            if i > 0 {
                joined.append(", ");
            }
            joined.append(self.artists[i].as_str());
            proof {
                lemma_joined_prefix_step(self.artists@.map_values(|a: String| a@), i as int);
            }
            i = i + 1;
        }
        proof {
            lemma_joined_prefix_full(self.artists@.map_values(|a: String| a@));
        }
        joined.append(" - ");
        joined.append(self.name.as_str());
        joined
    }
}

/// The join of the first `i` artists, in left-fold form.
pub open spec fn joined_prefix(artists: Seq<Seq<char>>, i: int) -> Seq<char>
    decreases i,
{
    if i <= 0 {
        Seq::empty()
    } else if i == 1 {
        artists[0]
    } else {
        joined_prefix(artists, i - 1) + ", "@ + artists[i - 1]
    }
}

proof fn lemma_joined_prefix_step(artists: Seq<Seq<char>>, i: int)
    requires
        0 <= i < artists.len(),
    ensures
        i == 0 ==> joined_prefix(artists, 1) == joined_prefix(artists, 0) + artists[0],
        i > 0 ==> joined_prefix(artists, i + 1) == joined_prefix(artists, i) + ", "@ + artists[i],
{
    if i == 0 {
        assert(joined_prefix(artists, 0) + artists[0] =~= artists[0]);
    }
}

/// The left-fold join equals the recursive join.
proof fn lemma_joined_prefix_full(artists: Seq<Seq<char>>)
    ensures
        joined_prefix(artists, artists.len() as int) == joined_artists(artists),
    decreases artists.len(),
{
    lemma_joined_agree(artists, artists.len() as int);
    assert(artists.take(artists.len() as int) =~= artists);
}

proof fn lemma_joined_agree(artists: Seq<Seq<char>>, i: int)
    requires
        0 <= i <= artists.len(),
    ensures
        joined_prefix(artists, i) == joined_artists(artists.take(i)),
    decreases i,
{
    if i <= 0 {
    } else if i == 1 {
        assert(artists.take(1) =~= seq![artists[0]]);
        assert(joined_artists(artists.take(1)) == artists[0]);
    } else {
        lemma_joined_agree(artists, i - 1);
        lemma_joined_snoc(artists.take(i - 1), artists[i - 1]);
        assert(artists.take(i) =~= artists.take(i - 1).push(artists[i - 1]));
    }
}

proof fn lemma_joined_snoc(artists: Seq<Seq<char>>, last: Seq<char>)
    requires
        artists.len() >= 1,
    ensures
        joined_artists(artists.push(last)) == joined_artists(artists) + ", "@ + last,
    decreases artists.len(),
{
    let pushed = artists.push(last);
    if artists.len() == 1 {
        assert(pushed.drop_first() =~= seq![last]);
        assert(joined_artists(pushed.drop_first()) == last);
    } else {
        assert(pushed.drop_first() =~= artists.drop_first().push(last));
        lemma_joined_snoc(artists.drop_first(), last);
        assert(artists[0] + ", "@ + (joined_artists(artists.drop_first()) + ", "@ + last) =~= (
        artists[0] + ", "@ + joined_artists(artists.drop_first())) + ", "@ + last);
    }
}

/// How many tracks of a sequence carry a match.
pub open spec fn spec_matched_count(tracks: Seq<SoulseekPlaylistTrack>) -> int
    decreases tracks.len(),
{
    if tracks.len() == 0 {
        0
    } else {
        (if tracks[0].matched_file is Some {
            1int
        } else {
            0int
        }) + spec_matched_count(tracks.drop_first())
    }
}

proof fn lemma_matched_count_take(tracks: Seq<SoulseekPlaylistTrack>, i: int)
    requires
        0 <= i < tracks.len(),
    ensures
        spec_matched_count(tracks.take(i + 1)) == spec_matched_count(tracks.take(i)) + (if tracks[i].matched_file is Some {
            1int
        } else {
            0int
        }),
    decreases i,
{
    if i == 0 {
        assert(tracks.take(1) =~= seq![tracks[0]]);
        assert(tracks.take(1).drop_first() =~= Seq::<SoulseekPlaylistTrack>::empty());
        assert(tracks.take(0) =~= Seq::<SoulseekPlaylistTrack>::empty());
    } else {
        lemma_matched_count_take(tracks.drop_first(), i - 1);
        assert(tracks.take(i + 1).drop_first() =~= tracks.drop_first().take(i));
        assert(tracks.take(i).drop_first() =~= tracks.drop_first().take(i - 1));
        assert(tracks.take(i + 1)[0] == tracks[0]);
        assert(tracks.take(i)[0] == tracks[0]);
        assert(tracks.drop_first()[i - 1] == tracks[i]);
    }
}

impl SoulseekPlaylist {
    /// Prepares every track of a playlist for searching.
    pub fn from_spotify_playlist(playlist: SpotifyPlaylist) -> (r: SoulseekPlaylist)
        ensures
            r.name@ == playlist.name@,
            r.tracks@.len() == playlist.tracks@.len(),
            forall|i: int|
                0 <= i < r.tracks@.len() ==> {
                    &&& (#[trigger] r.tracks@[i]).spotify_track == playlist.tracks@[i]
                    &&& r.tracks@[i].search_query@ == search_query_chars(playlist.tracks@[i])
                    &&& r.tracks@[i].matched_file is None
                },
    {
        let ghost orig = playlist.tracks@;
        let mut rest = playlist.tracks;
        let mut tracks: Vec<SoulseekPlaylistTrack> = Vec::new();
        proof {
            assert(orig.skip(0) =~= orig);
        }
        while rest.len() > 0
            invariant
                tracks@.len() + rest@.len() == orig.len(),
                rest@ =~= orig.skip(tracks@.len() as int),
                forall|j: int|
                    0 <= j < tracks@.len() ==> {
                        &&& (#[trigger] tracks@[j]).spotify_track == orig[j]
                        &&& tracks@[j].search_query@ == search_query_chars(orig[j])
                        &&& tracks@[j].matched_file is None
                    },
            decreases rest@.len(),
        {
            let ghost rest_before = rest@;
            let track = rest.remove(0);
            proof {
                assert(rest@ =~= rest_before.drop_first());
                assert(track == orig[tracks@.len() as int]);
            }
            let search_query = track.to_search_query();
            tracks.push(
                SoulseekPlaylistTrack { spotify_track: track, search_query, matched_file: None },
            );
            proof {
                assert(rest@ =~= orig.skip(tracks@.len() as int));
            }
        }
        SoulseekPlaylist { name: playlist.name, tracks }
    }

    /// Prepares a single track.
    pub fn from_single_track(track: SpotifyTrack) -> (r: SoulseekPlaylist)
        ensures
            r.name@ == display_name_chars(track),
            r.tracks@.len() == 1,
            r.tracks@[0].spotify_track == track,
            r.tracks@[0].search_query@ == search_query_chars(track),
            r.tracks@[0].matched_file is None,
    {
        let search_query = track.to_search_query();
        let name = track.display_name();
        let mut tracks: Vec<SoulseekPlaylistTrack> = Vec::new();
        tracks.push(SoulseekPlaylistTrack { spotify_track: track, search_query, matched_file: None });
        SoulseekPlaylist { name, tracks }
    }

    /// How many tracks carry a match.
    pub fn matched_count(&self) -> (r: usize)
        ensures
            r == spec_matched_count(self.tracks@),
    {
        let mut count: usize = 0;
        let mut i: usize = 0;
        proof {
            assert(self.tracks@.take(0) =~= Seq::<SoulseekPlaylistTrack>::empty());
        }
        while i < self.tracks.len()
            invariant
                i <= self.tracks@.len(),
                count == spec_matched_count(self.tracks@.take(i as int)),
                count <= i,
            decreases self.tracks@.len() - i,
        {
            proof {
                lemma_matched_count_take(self.tracks@, i as int);
            }
            if self.tracks[i].matched_file.is_some() {
                count = count + 1;
            }
            i = i + 1;
        }
        proof {
            assert(self.tracks@.take(self.tracks@.len() as int) =~= self.tracks@);
        }
        count
    }

    /// The indices of the tracks that still lack a match, in order.
    pub fn unmatched_tracks(&self) -> (r: Vec<usize>)
        ensures
            r@.len() + spec_matched_count(self.tracks@) == self.tracks@.len(),
            forall|k: int|
                0 <= k < r@.len() ==> #[trigger] r@[k] < self.tracks@.len()
                    && self.tracks@[r@[k] as int].matched_file is None,
            forall|k1: int, k2: int| 0 <= k1 < k2 < r@.len() ==> r@[k1] < r@[k2],
    {
        let mut out: Vec<usize> = Vec::new();
        let mut i: usize = 0;
        proof {
            assert(self.tracks@.take(0) =~= Seq::<SoulseekPlaylistTrack>::empty());
        }
        while i < self.tracks.len()
            invariant
                i <= self.tracks@.len(),
                out@.len() + spec_matched_count(self.tracks@.take(i as int)) == i,
                forall|k: int|
                    0 <= k < out@.len() ==> #[trigger] out@[k] < i && self.tracks@[out@[k] as int].matched_file
                        is None,
                forall|k1: int, k2: int| 0 <= k1 < k2 < out@.len() ==> out@[k1] < out@[k2],
            decreases self.tracks@.len() - i,
        {
            proof {
                lemma_matched_count_take(self.tracks@, i as int);
            }
            if self.tracks[i].matched_file.is_none() {
                out.push(i);
            }
            i = i + 1;
        }
        proof {
            assert(self.tracks@.take(self.tracks@.len() as int) =~= self.tracks@);
        }
        out
    }
}

} // verus!
