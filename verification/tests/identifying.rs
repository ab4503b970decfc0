use color_finder::identify::{
    borrowed_name, checked_id, image_file_name, image_stem, track_id_by_image_path, IdFault,
    IdentifyError,
};

#[test]
fn file_name_of_the_convention_gives_its_identifier() {
    assert_eq!(
        track_id_by_image_path(Some("4iV5W9uYEdYUVa79Axb7Rh.jpg")),
        Ok("4iV5W9uYEdYUVa79Axb7Rh".to_string())
    );
    assert_eq!(track_id_by_image_path(Some("a.jpg")), Ok("a".to_string()));
    assert_eq!(track_id_by_image_path(Some("spotify.jpg")), Ok("spotify".to_string()));
    assert_eq!(track_id_by_image_path(Some("spotifyX1.jpg")), Ok("spotifyX1".to_string()));
}

#[test]
fn path_without_a_file_name_gives_no_identifier() {
    assert_eq!(track_id_by_image_path(None), Err(IdentifyError::NoFileName));
    assert_eq!(borrowed_name(&None), None);
    assert_eq!(borrowed_name(&Some("a.jpg".to_string())), Some("a.jpg"));
}

#[test]
fn file_name_without_the_extension_is_not_matched() {
    for name in ["4iV5W9uYEdYUVa79Axb7Rh.png", "4iV5W9uYEdYUVa79Axb7Rh", "", "jpg", ".jp", "a.JPG", "a.jpg ", "a.jpeg"] {
        assert_eq!(track_id_by_image_path(Some(name)), Err(IdentifyError::NotMatched));
    }
}

#[test]
fn stem_with_other_characters_is_invalid() {
    for name in ["abc def.jpg", "abc-def.jpg", "abc.def.jpg", "\u{e9}t\u{e9}.jpg", "a_b.jpg", "track:abc.jpg"] {
        assert_eq!(
            track_id_by_image_path(Some(name)),
            Err(IdentifyError::Invalid(IdFault::InvalidId))
        );
    }
}

#[test]
fn stem_that_is_a_track_uri_gives_the_bare_identifier() {
    assert_eq!(
        track_id_by_image_path(Some("spotify:track:4iV5W9uYEdYUVa79Axb7Rh.jpg")),
        Ok("4iV5W9uYEdYUVa79Axb7Rh".to_string())
    );
    assert_eq!(
        track_id_by_image_path(Some("spotify/track/4iV5W9uYEdYUVa79Axb7Rh.jpg")),
        Ok("4iV5W9uYEdYUVa79Axb7Rh".to_string())
    );
}

#[test]
fn stem_that_is_another_uri_is_invalid() {
    assert_eq!(
        track_id_by_image_path(Some("spotify:album:4iV5W9uYEdYUVa79Axb7Rh.jpg")),
        Err(IdentifyError::Invalid(IdFault::InvalidType))
    );
    assert_eq!(
        track_id_by_image_path(Some("spotify:nothing:4iV5W9uYEdYUVa79Axb7Rh.jpg")),
        Err(IdentifyError::Invalid(IdFault::InvalidType))
    );
    assert_eq!(
        track_id_by_image_path(Some("spotify:4iV5W9uYEdYUVa79Axb7Rh.jpg")),
        Err(IdentifyError::Invalid(IdFault::InvalidFormat))
    );
    assert_eq!(
        track_id_by_image_path(Some("spotify:track:4iV5W9uYEdY-Va79Axb7Rh.jpg")),
        Err(IdentifyError::Invalid(IdFault::InvalidId))
    );
}

#[test]
fn stem_is_what_stands_before_the_extension() {
    assert_eq!(image_stem("abc.jpg"), Some("abc"));
    assert_eq!(image_stem(".jpg"), Some(""));
    assert_eq!(image_stem("a.jpg.jpg"), Some("a.jpg"));
    assert_eq!(image_stem("\u{e9}t\u{e9} \u{1f3b5}.jpg"), Some("\u{e9}t\u{e9} \u{1f3b5}"));
    assert_eq!(image_stem("abc.jpx"), None);
    assert_eq!(image_stem("jpg"), None);
    assert_eq!(image_stem(""), None);
    assert_eq!(image_stem("\u{1f3b5}jpg"), None);
}

#[test]
fn checked_id_wraps_the_fault() {
    assert_eq!(checked_id(Ok("abc".to_string())), Ok("abc".to_string()));
    assert_eq!(
        checked_id(Err(IdFault::InvalidType)),
        Err(IdentifyError::Invalid(IdFault::InvalidType))
    );
    assert_eq!(
        checked_id(Err(IdFault::InvalidPrefix)),
        Err(IdentifyError::Invalid(IdFault::InvalidPrefix))
    );
}

#[test]
fn stored_name_leads_back_to_the_identifier() {
    assert_eq!(image_file_name("4iV5W9uYEdYUVa79Axb7Rh"), "4iV5W9uYEdYUVa79Axb7Rh.jpg");
    assert_eq!(image_file_name(""), ".jpg");
    for id in ["4iV5W9uYEdYUVa79Axb7Rh", "0", "abcXYZ019"] {
        assert_eq!(track_id_by_image_path(Some(&image_file_name(id))), Ok(id.to_string()));
    }
}

#[test]
fn bare_extension_stands_for_the_empty_identifier() {
    assert_eq!(track_id_by_image_path(Some(".jpg")), Ok(String::new()));
}

#[test]
fn text_that_only_resembles_a_uri_is_read_as_an_identifier() {
    assert_eq!(
        track_id_by_image_path(Some("SPOTIFY:track:4iV5W9uYEdYUVa79Axb7Rh.jpg")),
        Err(IdentifyError::Invalid(IdFault::InvalidId))
    );
    assert_eq!(
        track_id_by_image_path(Some("spotify\u{e9}.jpg")),
        Err(IdentifyError::Invalid(IdFault::InvalidId))
    );
    assert_eq!(
        track_id_by_image_path(Some("spotif:track:abc.jpg")),
        Err(IdentifyError::Invalid(IdFault::InvalidId))
    );
    assert_eq!(track_id_by_image_path(Some("spotify7.jpg")), Ok("spotify7".to_string()));
    assert_eq!(
        track_id_by_image_path(Some("spotify:.jpg")),
        Err(IdentifyError::Invalid(IdFault::InvalidFormat))
    );
    assert_eq!(
        track_id_by_image_path(Some("spotify:track:.jpg")),
        Ok(String::new())
    );
}
