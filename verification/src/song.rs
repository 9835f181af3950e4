use vstd::prelude::*;

verus! {

/// A single track in the listening history.  Identity is the full
/// (track, artist, album) triple: the same track on two different albums is
/// two distinct chain states.
#[derive(Debug)]
pub struct Song {
    pub track: String,
    pub artist: String,
    pub album: String,
}

/// The mathematical value of a `Song`: its three fields as character
/// sequences.
pub ghost struct SongView {
    pub track: Seq<char>,
    pub artist: Seq<char>,
    pub album: Seq<char>,
}

impl View for Song {
    type V = SongView;

    open spec fn view(&self) -> SongView {
        SongView { track: self.track@, artist: self.artist@, album: self.album@ }
    }
}

impl Song {
    pub fn new(track: String, artist: String, album: String) -> (s: Song)
        ensures
            s@ == (SongView { track: track@, artist: artist@, album: album@ }),
    {
        Song { track, artist, album }
    }
}

impl Clone for Song {
    fn clone(&self) -> (res: Song)
        ensures
            res@ == self@,
    {
        Song { track: self.track.clone(), artist: self.artist.clone(), album: self.album.clone() }
    }
}

impl PartialEq for Song {
    fn eq(&self, other: &Song) -> (r: bool) {
        self.track == other.track && self.artist == other.artist && self.album == other.album
    }
}

impl vstd::std_specs::cmp::PartialEqSpecImpl for Song {
    open spec fn obeys_eq_spec() -> bool {
        true
    }

    open spec fn eq_spec(&self, other: &Song) -> bool {
        self@ == other@
    }
}

} // verus!
