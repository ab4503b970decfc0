//! From the name of an image file to the catalog identifier of its track.
//!
//! An image is stored under the identifier of its track followed by the
//! extension `.jpg`. Whether the text before the extension is an identifier
//! is for `rspotify` to say.

use vstd::prelude::*;
use vstd::string::*;
use rspotify::model::{ IdError, TrackId };
use rspotify::prelude::Id;

verus! {

/// Why `rspotify` takes a text for no track identifier.
#[derive(Clone, Copy, Debug, PartialEq, Eq, Structural)]
pub enum IdFault {
    /// The text does not begin like a URI.
    InvalidPrefix,
    /// The text begins like a URI but does not fall into a type and an
    /// identifier.
    InvalidFormat,
    /// The text is the URI of something that is not a track.
    InvalidType,
    /// The identifier holds a character that no identifier holds.
    InvalidId,
}

/// Why a file name gives no track identifier.
#[derive(Clone, Copy, Debug, PartialEq, Eq, Structural)]
pub enum IdentifyError {
    /// The file has no name that is text.
    NoFileName,
    /// The name does not end in the extension.
    NotMatched,
    /// What stands before the extension is no track identifier.
    Invalid(IdFault),
}

/// The extension of an image file: `.jpg`.
pub open spec fn extension() -> Seq<char> {
    seq!['.', 'j', 'p', 'g']
}

/// What stands before the extension in `name`, if `name` ends in it.
pub open spec fn stem_of(name: Seq<char>) -> Option<Seq<char>> {
    if name.len() >= 4 && name.subrange(name.len() - 4, name.len() as int) == extension() {
        Some(name.subrange(0, name.len() - 4))
    } else {
        None
    }
}

/// An ASCII letter or digit.
pub open spec fn is_alphanumeric(c: char) -> bool {
    ('0' <= c && c <= '9') || ('a' <= c && c <= 'z') || ('A' <= c && c <= 'Z')
}

/// A text of ASCII letters and digits only: the form of a bare identifier.
pub open spec fn is_plain_id(s: Seq<char>) -> bool {
    forall|i: int| 0 <= i < s.len() ==> is_alphanumeric(#[trigger] s[i])
}

/// The text begins like a URI: `spotify` and then a colon or a slash.
pub open spec fn is_uri_like(s: Seq<char>) -> bool {
    &&& s.len() >= 8
    &&& s.subrange(0, 7) == seq!['s', 'p', 'o', 't', 'i', 'f', 'y']
    &&& (s[7] == ':' || s[7] == '/')
}

/// What `TrackId::from_id_or_uri` makes of a text: the bare identifier of
/// the track, or the reason why there is none.
pub uninterp spec fn track_id_of(s: Seq<char>) -> Result<Seq<char>, IdFault>;

/// A parsed identifier, with its text as a sequence of characters.
pub open spec fn parsed_view(r: Result<String, IdFault>) -> Result<Seq<char>, IdFault> {
    match r {
        Ok(id) => Ok(id@),
        Err(e) => Err(e),
    }
}

/// An identified file, with the identifier as a sequence of characters.
pub open spec fn identified_view(r: Result<String, IdentifyError>) -> Result<
    Seq<char>,
    IdentifyError,
> {
    match r {
        Ok(id) => Ok(id@),
        Err(e) => Err(e),
    }
}

/// What a parsed stem means for the file: its identifier, or the fault
/// that makes the stem invalid.
pub open spec fn checked(parsed: Result<Seq<char>, IdFault>) -> Result<Seq<char>, IdentifyError> {
    match parsed {
        Ok(id) => Ok(id),
        Err(e) => Err(IdentifyError::Invalid(e)),
    }
}

/// The track identifier that a file name stands for.
pub open spec fn identified(file_name: Option<Seq<char>>) -> Result<Seq<char>, IdentifyError> {
    match file_name {
        None => Err(IdentifyError::NoFileName),
        Some(name) => match stem_of(name) {
            None => Err(IdentifyError::NotMatched),
            Some(stem) => checked(track_id_of(stem)),
        },
    }
}

/// A file name, if there is one, as a sequence of characters.
pub open spec fn file_name_view(file_name: Option<&str>) -> Option<Seq<char>> {
    match file_name {
        Some(name) => Some(name@),
        None => None,
    }
}

/// Calls `rspotify::model::TrackId::from_id_or_uri` and hands back the bare
/// identifier of the track.
///
/// The contract claims that the outcome depends on the text alone; that a
/// text which does not begin like a URI is an identifier exactly if it
/// holds ASCII letters and digits only, is then handed back unchanged, and
/// is otherwise refused as `InvalidId`; and that whatever identifier comes
/// back holds ASCII letters and digits only.
#[verifier::external_body]
fn parse_track_id(s: &str) -> (r: Result<String, IdFault>)
    ensures
        parsed_view(r) == track_id_of(s@),
        !is_uri_like(s@) ==> parsed_view(r) == if is_plain_id(s@) {
            Ok::<Seq<char>, IdFault>(s@)
        } else {
            Err::<Seq<char>, IdFault>(IdFault::InvalidId)
        },
        r matches Ok(id) ==> is_plain_id(id@),
{
    match TrackId::from_id_or_uri(s) {
        Ok(id) => Ok(id.id().to_string()),
        Err(IdError::InvalidPrefix) => Err(IdFault::InvalidPrefix),
        Err(IdError::InvalidFormat) => Err(IdFault::InvalidFormat),
        Err(IdError::InvalidType) => Err(IdFault::InvalidType),
        Err(IdError::InvalidId) => Err(IdFault::InvalidId),
    }
}

/// What stands before the extension `.jpg` in a file name, if the name
/// ends in it.
pub fn image_stem(name: &str) -> (stem: Option<&str>)
    ensures
        match stem {
            Some(s) => stem_of(name@) == Some(s@),
            None => stem_of(name@).is_none(),
        },
{
    let n = name.unicode_len();
    if n < 4 {
        return None;
    }
    let matches = name.get_char(n - 4) == '.' && name.get_char(n - 3) == 'j' && name.get_char(
        n - 2,
    ) == 'p' && name.get_char(n - 1) == 'g';
    proof {
        let tail = name@.subrange(n - 4, n as int);
        if matches {
            assert(tail =~= extension());
        } else {
            assert(tail[0] == name@[n - 4]);
            assert(tail[1] == name@[n - 3]);
            assert(tail[2] == name@[n - 2]);
            assert(tail[3] == name@[n - 1]);
            assert(extension()[0] == '.' && extension()[1] == 'j' && extension()[2] == 'p'
                && extension()[3] == 'g');
        }
    }
    if matches {
        Some(name.substring_char(0, n - 4))
    } else {
        None
    }
}

/// Turns the outcome of parsing a stem into the outcome for the file.
pub fn checked_id(parsed: Result<String, IdFault>) -> (r: Result<String, IdentifyError>)
    ensures
        identified_view(r) == checked(parsed_view(parsed)),
{
    match parsed {
        Ok(id) => Ok(id),
        Err(e) => Err(IdentifyError::Invalid(e)),
    }
}

/// The track identifier that the name of an image file stands for.
///
/// `file_name` is the last component of the file's path, or nothing if the
/// path has none that is text, which is `NoFileName`. The name must end in
/// `.jpg`, else it is `NotMatched`; what stands before must be a track
/// identifier, else it is `Invalid`. A name made of ASCII letters and
/// digits and the extension stands for those letters and digits.
pub fn track_id_by_image_path(file_name: Option<&str>) -> (r: Result<String, IdentifyError>)
    ensures
        identified_view(r) == identified(file_name_view(file_name)),
        r matches Ok(id) ==> is_plain_id(id@),
        file_name matches Some(name) ==> stem_of(name@) matches Some(stem) ==> !is_uri_like(stem)
            ==> identified_view(r) == if is_plain_id(stem) {
            Ok::<Seq<char>, IdentifyError>(stem)
        } else {
            Err::<Seq<char>, IdentifyError>(IdentifyError::Invalid(IdFault::InvalidId))
        },
{
    let name = match file_name {
        None => { return Err(IdentifyError::NoFileName); },
        Some(name) => name,
    };
    match image_stem(name) {
        None => Err(IdentifyError::NotMatched),
        Some(stem) => checked_id(parse_track_id(stem)),
    }
}

/// The file name of an entry or a candidate, borrowed as text.
pub fn borrowed_name(file_name: &Option<String>) -> (r: Option<&str>)
    ensures
        r.is_some() == file_name.is_some(),
        r matches Some(name) ==> name@ == file_name.unwrap()@,
{
    match file_name {
        Some(name) => Some(name.as_str()),
        None => None,
    }
}

/// The name under which the image of a track is stored: its identifier and
/// the extension.
pub fn image_file_name(id: &str) -> (name: String)
    ensures
        name@ == id@ + extension(),
{
    proof {
        reveal_strlit(".jpg");
        assert(".jpg"@ =~= extension());
    }
    String::from_str(id).concat(".jpg")
}

/// Taking the extension off a stored name gives back what it was put on.
pub proof fn lemma_stem_of_file_name(id: Seq<char>)
    ensures
        stem_of(id + extension()) == Some(id),
{
    let name = id + extension();
    assert(name.subrange(name.len() - 4, name.len() as int) =~= extension());
    assert(name.subrange(0, name.len() - 4) =~= id);
}

/// A text of letters and digits does not begin like a URI.
pub proof fn lemma_plain_is_not_uri(s: Seq<char>)
    requires
        is_plain_id(s),
    ensures
        !is_uri_like(s),
{
    if s.len() >= 8 {
        assert(is_alphanumeric(s[7]));
    }
}

} // verus!
