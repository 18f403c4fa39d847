//! The canonical track model. A remote payload is first flattened to a
//! [`RawTrack`] of plain values; [`AppTrack::from_json`] normalizes it into
//! the canonical [`AppTrack`], reconstructing missing metadata of local-file
//! tracks from their synthetic colon-delimited URI, so that two independently
//! normalized representations of the same local file are byte-identical.

use vstd::prelude::*;
use vstd::string::StringSliceAdditionalSpecFns;
use crate::strutil::{
    before_char, before_char_chars, chars_vec, collapse_whitespace, collapse_ws, filter_alnum_ws,
    keep_alnum_ws, lower_of, lowercase, push_char, spec_decimal, split_char, split_char_chars,
    str_eq, string_from_chars, u32_to_string,
};

verus! {

/// A canonical playlist track. `uri` is the primary join key for remote
/// mutation calls and is always non-empty; `id` is empty for local-file
/// tracks, whose synthetic URI encodes artist, album, title and duration.
#[derive(Clone, Debug)]
pub struct AppTrack {
    pub id: String,
    pub name: String,
    pub artist_names: String,
    pub album_name: String,
    pub album_type: String,
    pub release_date: String,
    pub uri: String,
    pub duration_ms: u32,
}

/// One criterion of a multi-key sort order.
#[derive(Clone, Debug)]
pub struct SortRule {
    pub id: String,
    pub criteria: String,
    pub descending: bool,
}

/// Summary statistics of one playlist pass.
#[derive(Clone, Debug)]
pub struct ProcessingResult {
    pub playlist_id: String,
    pub playlist_name: String,
    pub original_count: usize,
    pub final_count: usize,
    pub sorted: bool,
    pub duplicates_removed: usize,
    pub versions_replaced: usize,
}

/// A playlist as the remote service lists it.
#[derive(Clone, Debug)]
pub struct Playlist {
    pub id: String,
    pub name: String,
    pub owner: String,
    pub editable: bool,
    pub collaborative: bool,
    pub is_public: bool,
}

impl Playlist {
    /// A playlist is editable by the user exactly when the user owns it or
    /// it is collaborative; an unknown visibility counts as not public.
    pub fn from_parts(
        id: String,
        name: String,
        owner: String,
        user_id: &str,
        collaborative: bool,
        is_public: Option<bool>,
    ) -> (p: Playlist)
        ensures
            p.id@ == id@,
            p.name@ == name@,
            p.owner@ == owner@,
            p.collaborative == collaborative,
            p.editable == (owner@ == user_id@ || collaborative),
            p.is_public == (is_public is Some && is_public->0),
    {
        let same_owner = str_eq(owner.as_str(), user_id);
        Playlist {
            id,
            name,
            editable: same_owner || collaborative,
            owner,
            collaborative,
            is_public: match is_public {
                Some(b) => b,
                None => false,
            },
        }
    }
}

/// A remote track payload flattened to plain values, before normalization.
/// A missing field is `None`; `artist_names` holds the declared artist names
/// in order, or `None` when the payload has no artist list.
#[derive(Clone, Debug)]
pub struct RawTrack {
    pub type_tag: String,
    pub uri: String,
    pub id: Option<String>,
    pub name: Option<String>,
    pub album_name: Option<String>,
    pub album_type: Option<String>,
    pub release_date: Option<String>,
    pub duration_ms: u32,
    pub artist_names: Option<Vec<String>>,
}

/// The view of an optional string, or a default.
pub open spec fn opt_or(o: Option<String>, dflt: Seq<char>) -> Seq<char> {
    match o {
        Some(s) => s@,
        None => dflt,
    }
}

/// Whether a byte is a hexadecimal digit.
pub open spec fn is_hex_digit(b: u8) -> bool {
    (48 <= b <= 57) || (65 <= b <= 70) || (97 <= b <= 102)
}

/// The value of a hexadecimal digit byte.
pub open spec fn hex_val(b: u8) -> int {
    if 48 <= b <= 57 {
        b - 48
    } else if 65 <= b <= 70 {
        b - 55
    } else {
        b - 87
    }
}

/// Percent-decoding over a byte sequence: `%` followed by two hexadecimal
/// digits (with at least one more byte of lookahead room) becomes the encoded
/// byte, every other byte passes through; each output byte is read as a
/// character directly.
pub open spec fn spec_percent_decode(b: Seq<u8>) -> Seq<char>
    decreases b.len(),
{
    if b.len() == 0 {
        Seq::empty()
    } else if b[0] == 37 && b.len() >= 3 && is_hex_digit(b[1]) && is_hex_digit(b[2]) {
        seq![(((hex_val(b[1]) * 16 + hex_val(b[2])) as u8) as char)] + spec_percent_decode(
            b.skip(3),
        )
    } else {
        seq![(b[0] as char)] + spec_percent_decode(b.skip(1))
    }
}

/// Percent-decoding applied to the bytes of a character sequence.
pub open spec fn decoded_chars(s: Seq<char>) -> Seq<char> {
    spec_percent_decode(vstd::utf8::encode_utf8(s))
}

fn hex_digit_value(b: u8) -> (r: Option<u8>)
    ensures
        r is Some <==> is_hex_digit(b),
        r is Some ==> r->0 == hex_val(b),
{
    if 48 <= b && b <= 57 {
        Some(b - 48)
    } else if 65 <= b && b <= 70 {
        Some(b - 55)
    } else if 97 <= b && b <= 102 {
        Some(b - 87)
    } else {
        None
    }
}

/// Decode percent-escapes in a string, byte by byte.
pub fn percent_decode(input: &str) -> (r: String)
    ensures
        r@ == decoded_chars(input@),
{
    let bytes = input.as_bytes();
    let n = bytes.len();
    let mut out = String::new();
    let mut i: usize = 0;
    proof {
        assert(bytes@.skip(0) =~= bytes@);
    }
    while i < n
        invariant
            i <= n,
            n == bytes@.len(),
            bytes@ == input.spec_bytes(),
            spec_percent_decode(bytes@) == out@ + spec_percent_decode(bytes@.skip(i as int)),
        decreases n - i,
    {
        let ghost rest = bytes@.skip(i as int);
        let b0 = bytes[i];
        proof {
            assert(rest[0] == bytes@[i as int]);
        }
        if b0 == 37 && n - i >= 3 {
            proof {
                assert(rest[1] == bytes@[i as int + 1]);
                assert(rest[2] == bytes@[i as int + 2]);
            }
            let h1 = hex_digit_value(bytes[i + 1]);
            let h2 = hex_digit_value(bytes[i + 2]);
            match (h1, h2) {
                (Some(v1), Some(v2)) => {
                    let c = (v1 * 16 + v2) as char;
                    push_char(&mut out, c);
                    proof {
                        assert(rest.skip(3) =~= bytes@.skip(i as int + 3));
                        assert(spec_percent_decode(rest) == seq![c] + spec_percent_decode(
                            rest.skip(3),
                        ));
                    }
                    i = i + 3;
                    continue ;
                },
                _ => {},
            }
        }
        let c = b0 as char;
        push_char(&mut out, c);
        proof {
            assert(rest.skip(1) =~= bytes@.skip(i as int + 1));
            assert(spec_percent_decode(rest) == seq![c] + spec_percent_decode(rest.skip(1)));
        }
        i = i + 1;
    }
    proof {
        assert(bytes@.skip(n as int) =~= Seq::<u8>::empty());
        assert(out@ =~= spec_percent_decode(input.spec_bytes()));
    }
    out
}

/// Whether a byte passes through percent-encoding unchanged: ASCII letters
/// and digits and `- _ . :`.
pub open spec fn is_safe_byte(b: u8) -> bool {
    (65 <= b <= 90) || (97 <= b <= 122) || (48 <= b <= 57) || b == 45 || b == 95 || b == 46 || b
        == 58
}

/// The uppercase hexadecimal digit of a value below 16.
pub open spec fn spec_hex_upper(x: int) -> char {
    if x < 10 {
        ((48 + x) as u8) as char
    } else {
        ((55 + x) as u8) as char
    }
}

/// Strict percent-encoding over a byte sequence: safe bytes pass through,
/// every other byte becomes `%` and two uppercase hexadecimal digits.
pub open spec fn spec_percent_encode(b: Seq<u8>) -> Seq<char>
    decreases b.len(),
{
    if b.len() == 0 {
        Seq::empty()
    } else if is_safe_byte(b[0]) {
        seq![(b[0] as char)] + spec_percent_encode(b.skip(1))
    } else {
        seq![
            '%',
            spec_hex_upper(b[0] as int / 16),
            spec_hex_upper(b[0] as int % 16),
        ] + spec_percent_encode(b.skip(1))
    }
}

/// Percent-encoding applied to the bytes of a character sequence.
pub open spec fn encoded_chars(s: Seq<char>) -> Seq<char> {
    spec_percent_encode(vstd::utf8::encode_utf8(s))
}

fn hex_upper_digit(x: u8) -> (r: char)
    requires
        x < 16,
    ensures
        r == spec_hex_upper(x as int),
{
    if x < 10 {
        (48 + x) as char
    } else {
        (55 + x) as char
    }
}

/// Percent-encode a string, byte by byte.
pub fn percent_encode(input: &str) -> (r: String)
    ensures
        r@ == encoded_chars(input@),
{
    let bytes = input.as_bytes();
    let n = bytes.len();
    let mut out = String::new();
    let mut i: usize = 0;
    proof {
        assert(bytes@.skip(0) =~= bytes@);
    }
    while i < n
        invariant
            i <= n,
            n == bytes@.len(),
            bytes@ == input.spec_bytes(),
            spec_percent_encode(bytes@) == out@ + spec_percent_encode(bytes@.skip(i as int)),
        decreases n - i,
    {
        let ghost rest = bytes@.skip(i as int);
        let b = bytes[i];
        proof {
            assert(rest[0] == bytes@[i as int]);
            assert(rest.skip(1) =~= bytes@.skip(i as int + 1));
        }
        let safe = (65 <= b && b <= 90) || (97 <= b && b <= 122) || (48 <= b && b <= 57) || b == 45
            || b == 95 || b == 46 || b == 58;
        if safe {
            let c = b as char;
            push_char(&mut out, c);
            proof {
                assert(spec_percent_encode(rest) == seq![c] + spec_percent_encode(rest.skip(1)));
            }
        } else {
            let c1 = hex_upper_digit(b / 16);
            let c2 = hex_upper_digit(b % 16);
            let ghost out0 = out@;
            push_char(&mut out, '%');
            push_char(&mut out, c1);
            push_char(&mut out, c2);
            proof {
                assert(spec_percent_encode(rest) == seq!['%', c1, c2] + spec_percent_encode(
                    rest.skip(1),
                ));
                assert(out@ =~= out0 + seq!['%', c1, c2]);
            }
        }
        i = i + 1;
    }
    proof {
        assert(bytes@.skip(n as int) =~= Seq::<u8>::empty());
        assert(out@ =~= spec_percent_encode(input.spec_bytes()));
    }
    out
}


/// The artist names joined by a comma and a space, in declared order.
pub open spec fn join_comma_space(parts: Seq<Seq<char>>) -> Seq<char>
    decreases parts.len(),
{
    if parts.len() == 0 {
        Seq::empty()
    } else {
        join_comma_space(parts.drop_last()) + (if parts.len() > 1 {
            ", "@
        } else {
            Seq::empty()
        }) + parts.last()
    }
}

/// Join strings with a comma and a space.
pub fn join_names(names: &Vec<String>) -> (r: String)
    ensures
        r@ == join_comma_space(names.deep_view()),
{
    let mut r = String::new();
    let mut i: usize = 0;
    proof {
        assert(names.deep_view().take(0) =~= Seq::<Seq<char>>::empty());
    }
    while i < names.len()
        invariant
            i <= names@.len(),
            names.deep_view().len() == names@.len(),
            r@ == join_comma_space(names.deep_view().take(i as int)),
        decreases names@.len() - i,
    {
        if i > 0 {
            r.append(", ");
        }
        r.append(names[i].as_str());
        proof {
            let dv = names.deep_view();
            assert(dv.take(i + 1).drop_last() =~= dv.take(i as int));
            assert(dv.take(i + 1).last() == dv[i as int]);
            assert(dv[i as int] == names@[i as int]@);
        }
        i = i + 1;
    }
    proof {
        assert(names.deep_view().take(names@.len() as int) =~= names.deep_view());
    }
    r
}

/// `+` characters turned into spaces, as the synthetic URI stores them.
pub open spec fn plus_to_space(s: Seq<char>) -> Seq<char> {
    s.map_values(
        |c: char|
            if c == '+' {
                ' '
            } else {
                c
            },
    )
}

fn replace_plus(v: &Vec<char>) -> (r: Vec<char>)
    ensures
        r@ == plus_to_space(v@),
{
    let mut r: Vec<char> = Vec::new();
    let mut i: usize = 0;
    while i < v.len()
        invariant
            i <= v@.len(),
            r@ == plus_to_space(v@.take(i as int)),
        decreases v@.len() - i,
    {
        let c = v[i];
        if c == '+' {
            r.push(' ');
        } else {
            r.push(c);
        }
        i = i + 1;
        assert(r@ =~= plus_to_space(v@.take(i as int)));
    }
    assert(v@.take(v@.len() as int) =~= v@);
    r
}

/// Whether a URI uses the local-file scheme.
pub open spec fn spec_is_local(u: Seq<char>) -> bool {
    u.len() >= 13 && u.take(13) == "spotify:local"@
}

/// The colon-delimited segments of a URI.
pub open spec fn uri_parts(u: Seq<char>) -> Seq<Seq<char>> {
    split_char(u, ':')
}

fn is_local_uri(u: &Vec<char>) -> (r: bool)
    ensures
        r == spec_is_local(u@),
{
    proof {
        reveal_strlit("spotify:local");
    }
    let lit = chars_vec("spotify:local");
    if u.len() < 13 {
        return false;
    }
    let mut i: usize = 0;
    while i < 13
        invariant
            i <= 13,
            u@.len() >= 13,
            lit@ == "spotify:local"@,
            lit@.len() == 13,
            forall|j: int| 0 <= j < i ==> u@[j] == lit@[j],
        decreases 13 - i,
    {
        if u[i] != lit[i] {
            assert(u@.take(13)[i as int] != "spotify:local"@[i as int]);
            return false;
        }
        i = i + 1;
    }
    assert(u@.take(13) =~= "spotify:local"@);
    true
}

/// Text normalized for identity comparison: lowercased, stripped to
/// alphanumerics and whitespace, with whitespace runs collapsed to single
/// spaces and the ends trimmed.
pub open spec fn norm_text(s: Seq<char>) -> Seq<char> {
    collapse_ws(keep_alnum_ws(lower_of(s)))
}

fn normalize_text(s: &str) -> (r: String)
    ensures
        r@ == norm_text(s@),
{
    let lowered = lowercase(s);
    let filtered = filter_alnum_ws(&chars_vec(lowered.as_str()));
    let collapsed = collapse_whitespace(&filtered);
    string_from_chars(&collapsed)
}

/// The normalized identity key of a track: the normalized name, a `|`
/// separator, and the normalized first declared artist. Tracks sharing
/// this key are the same logical song.
pub open spec fn spec_duplicate_key(name: Seq<char>, artist_names: Seq<char>) -> Seq<char> {
    norm_text(name) + seq!['|'] + norm_text(before_char(artist_names, ','))
}

impl AppTrack {
    /// The normalized key for duplicate detection.
    pub fn duplicate_key(&self) -> (r: String)
        ensures
            r@ == spec_duplicate_key(self.name@, self.artist_names@),
    {
        let name_part = normalize_text(self.name.as_str());
        let artist_chars = chars_vec(self.artist_names.as_str());
        let first = before_char_chars(&artist_chars, ',');
        let first_str = string_from_chars(&first);
        let artist_part = normalize_text(first_str.as_str());
        let mut r = name_part;
        proof {
            reveal_strlit("|");
        }
        r.append("|");
        r.append(artist_part.as_str());
        proof {
            assert(r@ =~= spec_duplicate_key(self.name@, self.artist_names@));
        }
        r
    }
}


/// The declared artists of a payload, comma-joined; empty when the payload
/// has no artist list.
pub open spec fn spec_artists_declared(raw: RawTrack) -> Seq<char> {
    match raw.artist_names {
        Some(l) => join_comma_space(l.deep_view()),
        None => Seq::empty(),
    }
}

/// Whether the local-file fallback applies to a URI: the local scheme with
/// all six colon-delimited segments present.
pub open spec fn local_fallback_ok(u: Seq<char>) -> bool {
    spec_is_local(u) && uri_parts(u).len() >= 6
}

/// The normalized artist names for a track with URI `u` and declared
/// artists `declared`: a missing or placeholder artist list of a local file
/// is reconstructed from the URI's artist segment, the sentinel stands in as
/// a last resort, and local-file values are percent-decoded.
pub open spec fn norm_artists(u: Seq<char>, declared: Seq<char>) -> Seq<char> {
    let a = if local_fallback_ok(u) && (declared.len() == 0 || declared == "Unknown Artist"@) {
        plus_to_space(uri_parts(u)[2])
    } else {
        declared
    };
    let named = if a.len() == 0 {
        "Unknown Artist"@
    } else {
        a
    };
    if spec_is_local(u) {
        decoded_chars(named)
    } else {
        named
    }
}

/// The normalized track name: a missing or placeholder name of a local file
/// is reconstructed from the URI's title segment and percent-decoded.
pub open spec fn norm_name(u: Seq<char>, n0: Seq<char>) -> Seq<char> {
    let n = if (n0 == "Unknown"@ || n0.len() == 0) && local_fallback_ok(u) {
        plus_to_space(uri_parts(u)[4])
    } else {
        n0
    };
    if spec_is_local(u) {
        decoded_chars(n)
    } else {
        n
    }
}

/// The normalized album name: a missing or placeholder album of a local
/// file is reconstructed from the URI's album segment and percent-decoded.
pub open spec fn norm_album(u: Seq<char>, a0: Seq<char>) -> Seq<char> {
    let a = if (a0 == "Unknown Album"@ || a0.len() == 0) && local_fallback_ok(u) {
        plus_to_space(uri_parts(u)[3])
    } else {
        a0
    };
    if spec_is_local(u) {
        decoded_chars(a)
    } else {
        a
    }
}

fn artists_declared(raw: &RawTrack) -> (r: String)
    ensures
        r@ == spec_artists_declared(*raw),
{
    match &raw.artist_names {
        Some(l) => join_names(l),
        None => String::new(),
    }
}

fn local_segment(uri: &String, idx: usize) -> (r: String)
    requires
        uri_parts(uri@).len() > idx,
    ensures
        r@ == plus_to_space(uri_parts(uri@)[idx as int]),
{
    let uri_chars = chars_vec(uri.as_str());
    let parts = split_char_chars(&uri_chars, ':');
    proof {
        assert(parts.deep_view().len() == parts@.len());
        assert(parts.deep_view()[idx as int] == parts@[idx as int]@);
    }
    let seg = replace_plus(&parts[idx]);
    string_from_chars(&seg)
}

impl AppTrack {
    /// Normalize a flattened remote payload into a canonical track.
    ///
    /// Returns `None` exactly when the payload's type tag is not `track` or
    /// its URI is empty. The identifier defaults to the URI; missing fields
    /// fall back to placeholders, and for local-file URIs with all six
    /// segments the artist, album and name are reconstructed from the URI
    /// and percent-decoded, so equal local files normalize identically.
    pub fn from_json(raw: &RawTrack) -> (r: Option<AppTrack>)
        ensures
            r is Some <==> (raw.type_tag@ == "track"@ && raw.uri@.len() > 0),
            r matches Some(t) ==> {
                &&& t.uri@ == raw.uri@
                &&& t.id@ == opt_or(raw.id, raw.uri@)
                &&& t.name@ == norm_name(raw.uri@, opt_or(raw.name, "Unknown"@))
                &&& t.artist_names@ == norm_artists(raw.uri@, spec_artists_declared(*raw))
                &&& t.album_name@ == norm_album(raw.uri@, opt_or(raw.album_name, "Unknown Album"@))
                &&& t.album_type@ == opt_or(raw.album_type, "unknown"@)
                &&& t.release_date@ == opt_or(raw.release_date, Seq::empty())
                &&& t.duration_ms == raw.duration_ms
            },
    {
        if !str_eq(raw.type_tag.as_str(), "track") {
            return None;
        }
        if raw.uri.as_str().unicode_len() == 0 {
            return None;
        }
        let uri = raw.uri.clone();
        let id = match &raw.id {
            Some(s) => s.clone(),
            None => uri.clone(),
        };
        let name = match &raw.name {
            Some(s) => s.clone(),
            None => String::from_str("Unknown"),
        };
        let album_name = match &raw.album_name {
            Some(s) => s.clone(),
            None => String::from_str("Unknown Album"),
        };
        let album_type = match &raw.album_type {
            Some(s) => s.clone(),
            None => String::from_str("unknown"),
        };
        let release_date = match &raw.release_date {
            Some(s) => s.clone(),
            None => String::new(),
        };
        let mut artists = artists_declared(raw);

        let uri_chars = chars_vec(uri.as_str());
        let local = is_local_uri(&uri_chars);
        let parts = split_char_chars(&uri_chars, ':');
        proof {
            assert(parts.deep_view().len() == parts@.len());
        }
        let has_fallback = local && parts.len() >= 6;

        if has_fallback && (artists.as_str().unicode_len() == 0 || str_eq(
            artists.as_str(),
            "Unknown Artist",
        )) {
            artists = local_segment(&uri, 2);
        }
        if artists.as_str().unicode_len() == 0 {
            artists = String::from_str("Unknown Artist");
        }

        let mut final_name = name;
        if has_fallback && (str_eq(final_name.as_str(), "Unknown") || final_name.as_str()
            .unicode_len() == 0) {
            final_name = local_segment(&uri, 4);
        }

        let mut final_album = album_name;
        if has_fallback && (str_eq(final_album.as_str(), "Unknown Album") || final_album.as_str()
            .unicode_len() == 0) {
            final_album = local_segment(&uri, 3);
        }

        if local {
            artists = percent_decode(artists.as_str());
            final_name = percent_decode(final_name.as_str());
            final_album = percent_decode(final_album.as_str());
        }

        Some(
            AppTrack {
                id,
                name: final_name,
                artist_names: artists,
                album_name: final_album,
                album_type,
                release_date,
                uri,
                duration_ms: raw.duration_ms,
            },
        )
    }

    /// Normalize a track fetched from the remote catalog, given as plain
    /// values. A track with a catalog identifier gets the canonical
    /// `spotify:track:` URI; a local track without one gets the synthetic
    /// local URI encoding artists, album, name and whole seconds of its
    /// duration; anything else has no usable identifier and yields `None`.
    pub fn from_catalog(
        id: Option<String>,
        is_local: bool,
        name: String,
        artists: Vec<String>,
        album_name: String,
        album_type: Option<String>,
        release_date: Option<String>,
        duration_ms: u32,
    ) -> (r: Option<AppTrack>)
        ensures
            r is Some <==> (id is Some || is_local),
            r matches Some(t) ==> {
                let u = catalog_uri(id, is_local, name@, artists.deep_view(), album_name@,
                    duration_ms);
                &&& t.uri@ == u
                &&& t.id@ == (if id is Some { id->0@ } else { Seq::<char>::empty() })
                &&& t.name@ == norm_name(u, name@)
                &&& t.artist_names@ == norm_artists(u, join_comma_space(artists.deep_view()))
                &&& t.album_name@ == norm_album(u, album_name@)
                &&& t.album_type@ == opt_or(album_type, "unknown"@)
                &&& t.release_date@ == opt_or(release_date, Seq::empty())
                &&& t.duration_ms == duration_ms
            },
    {
        proof {
            reveal_strlit("track");
            reveal_strlit(":");
            reveal_strlit("spotify:track:");
            reveal_strlit("spotify:local:");
        }
        let (id_s, uri) = match &id {
            Some(track_id) => {
                let mut u = String::from_str("spotify:track:");
                u.append(track_id.as_str());
                (track_id.clone(), u)
            },
            None => {
                if is_local {
                    let joined = join_names(&artists);
                    let artists_enc = percent_encode(joined.as_str());
                    let album_enc = percent_encode(album_name.as_str());
                    let name_enc = percent_encode(name.as_str());
                    let secs = u32_to_string(duration_ms / 1000);
                    let mut u = String::from_str("spotify:local:");
                    u.append(artists_enc.as_str());
                    u.append(":");
                    u.append(album_enc.as_str());
                    u.append(":");
                    u.append(name_enc.as_str());
                    u.append(":");
                    u.append(secs.as_str());
                    (String::new(), u)
                } else {
                    (String::new(), String::new())
                }
            },
        };
        let ghost u_spec = catalog_uri(id, is_local, name@, artists.deep_view(), album_name@,
            duration_ms);
        proof {
            assert(uri@ =~= u_spec);
        }
        let raw = RawTrack {
            type_tag: String::from_str("track"),
            uri,
            id: Some(id_s),
            name: Some(name),
            album_name: Some(album_name),
            album_type,
            release_date,
            duration_ms,
            artist_names: Some(artists),
        };
        let r = Self::from_json(&raw);
        proof {
            if id is None && !is_local {
                assert(raw.uri@.len() == 0);
            } else if id is Some {
                assert(raw.uri@.len() >= 14);
            } else {
                assert(raw.uri@.len() >= 14);
            }
        }
        r
    }
}

/// The URI that `from_catalog` derives: the canonical catalog URI for an
/// identified track, the synthetic local URI for a local one, empty else.
pub open spec fn catalog_uri(
    id: Option<String>,
    is_local: bool,
    name: Seq<char>,
    artists: Seq<Seq<char>>,
    album_name: Seq<char>,
    duration_ms: u32,
) -> Seq<char> {
    match id {
        Some(track_id) => "spotify:track:"@ + track_id@,
        None => {
            if is_local {
                "spotify:local:"@ + encoded_chars(join_comma_space(artists)) + seq![':']
                    + encoded_chars(album_name) + seq![':'] + encoded_chars(name) + seq![':']
                    + spec_decimal(duration_ms as int / 1000)
            } else {
                Seq::empty()
            }
        },
    }
}

} // verus!
