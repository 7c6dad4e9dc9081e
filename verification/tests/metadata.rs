use librespot::protocol::metadata::{
    Album, Album_Type, Artist, AudioFile, AudioFile_Format, Date, Disc, Image, ImageGroup, Image_Size,
    Restriction, Restriction_Type, TopTracks, Track,
};

#[test]
fn track_with_album_and_artists_roundtrip() {
    let mut artist = Artist::new();
    artist.set_gid(vec![0xaa; 16]);
    artist.set_name("Band".to_string());
    let mut date = Date::new();
    date.set_year(1999);
    date.set_month(-3);
    let mut album = Album::new();
    album.set_name("Record".to_string());
    album.set_typ(Album_Type::SINGLE);
    album.set_date(date);
    album.set_artist(vec![artist]);
    let mut file = AudioFile::new();
    file.set_file_id(vec![1, 2, 3]);
    file.set_format(AudioFile_Format::OGG_VORBIS_160);
    let mut track = Track::new();
    track.set_gid(vec![7; 16]);
    track.set_name("Song".to_string());
    track.set_album(album);
    track.set_number(3);
    track.set_duration(215000);
    track.set_explicit(true);
    track.set_file(vec![file]);
    let bytes = track.write_to_bytes();
    assert_eq!(track.compute_size() as usize, bytes.len());
    let back = Track::parse_from_bytes(&bytes).unwrap();
    assert_eq!(back.get_name(), "Song");
    assert_eq!(back.get_number(), 3);
    assert_eq!(back.get_duration(), 215000);
    assert!(back.get_explicit());
    assert!(back.has_album());
    let a = back.get_album();
    assert_eq!(a.get_name(), "Record");
    assert_eq!(a.get_typ(), Album_Type::SINGLE);
    assert_eq!(a.get_date().get_year(), 1999);
    assert_eq!(a.get_date().get_month(), -3);
    assert!(!a.get_date().has_day());
    assert_eq!(a.get_artist().len(), 1);
    assert_eq!(a.get_artist()[0].get_name(), "Band");
    assert_eq!(back.get_file()[0].get_format(), AudioFile_Format::OGG_VORBIS_160);
    assert_eq!(back.get_file()[0].get_file_id(), &[1, 2, 3]);
}

#[test]
fn artist_with_top_tracks_roundtrip() {
    let mut t = Track::new();
    t.set_name("Hit".to_string());
    let mut tops = TopTracks::new();
    tops.set_country("SE".to_string());
    tops.set_track(vec![t]);
    let mut related = Artist::new();
    related.set_name("Other".to_string());
    let mut artist = Artist::new();
    artist.set_popularity(-7);
    artist.set_top_track(vec![tops]);
    artist.set_related(vec![related]);
    artist.set_genre(vec!["pop".to_string(), "rock".to_string()]);
    let back = Artist::parse_from_bytes(&artist.write_to_bytes()).unwrap();
    assert_eq!(back.get_popularity(), -7);
    assert_eq!(back.get_top_track()[0].get_country(), "SE");
    assert_eq!(back.get_top_track()[0].get_track()[0].get_name(), "Hit");
    assert_eq!(back.get_related()[0].get_name(), "Other");
    assert_eq!(back.get_genre(), &["pop".to_string(), "rock".to_string()]);
}

#[test]
fn disc_and_images() {
    let mut d = Disc::new();
    d.set_number(2);
    d.set_name("Side B".to_string());
    let back = Disc::parse_from_bytes(&d.write_to_bytes()).unwrap();
    assert_eq!(back.get_number(), 2);
    let mut img = Image::new();
    img.set_size(Image_Size::LARGE);
    img.set_width(640);
    let mut g = ImageGroup::new();
    g.set_image(vec![img]);
    let back = ImageGroup::parse_from_bytes(&g.write_to_bytes()).unwrap();
    assert_eq!(back.get_image()[0].get_size(), Image_Size::LARGE);
    assert_eq!(back.get_image()[0].get_width(), 640);
}

#[test]
fn sint32_fields_use_zigzag() {
    let mut d = Date::new();
    d.set_year(-1);
    assert_eq!(d.write_to_bytes(), vec![0x08, 0x01]);
    d.set_year(1);
    assert_eq!(d.write_to_bytes(), vec![0x08, 0x02]);
}

#[test]
fn restriction_catalogues() {
    let mut r = Restriction::new();
    r.set_countries_allowed("SEFI".to_string());
    r.set_typ(Restriction_Type::STREAMING);
    r.set_catalogue_str(vec!["premium".to_string()]);
    let back = Restriction::parse_from_bytes(&r.write_to_bytes()).unwrap();
    assert_eq!(back.get_countries_allowed(), "SEFI");
    assert_eq!(back.get_typ(), Restriction_Type::STREAMING);
    assert_eq!(back.get_catalogue_str(), &["premium".to_string()]);
}

#[test]
fn copies_of_nested_messages_are_equal() {
    let mut album = Album::new();
    album.set_name("Record".to_string());
    let mut track = Track::new();
    track.set_album(album);
    track.set_alternative(vec![Track::new()]);
    let copy = track.clone();
    assert_eq!(copy, track);
    assert_eq!(copy.write_to_bytes(), track.write_to_bytes());
    assert_eq!(copy.get_album().get_name(), "Record");
}
