use album_mosaic::args::{parse_args, ArgError, TileArrangement};

fn args(list: &[&str]) -> Vec<String> {
    list.iter().map(|s| s.to_string()).collect()
}

#[test]
fn parse_full_command_line() {
    let a = args(&[
        "spotify:playlist:xyz", "--creds", "id:secret", "-t", "5", "-o", "wall.png", "-a",
        "random", "-r", "1024",
    ]);
    let c = parse_args(&a).unwrap();
    assert_eq!(c.playlist_uri, "spotify:playlist:xyz");
    assert_eq!(c.credentials, "id:secret");
    assert_eq!(c.tile_side_len, 5);
    assert_eq!(c.output_path, "wall.png");
    assert_eq!(c.arrangement, TileArrangement::Random);
    assert_eq!(c.resolution, 1024);
}

#[test]
fn parse_long_flags() {
    let a = args(&["uri", "--creds", "a:b", "--tiles", "7", "--arrange", "last", "--res", "16",
        "--out", "x.png"]);
    let c = parse_args(&a).unwrap();
    assert_eq!(c.tile_side_len, 7);
    assert_eq!(c.arrangement, TileArrangement::Last);
    assert_eq!(c.resolution, 16);
    assert_eq!(c.output_path, "x.png");
}

#[test]
fn parse_defaults() {
    let a = args(&["uri", "--creds", "a:b"]);
    let c = parse_args(&a).unwrap();
    assert_eq!(c.playlist_uri, "uri");
    assert_eq!(c.tile_side_len, 2);
    assert_eq!(c.output_path, "mosaic.png");
    assert_eq!(c.arrangement, TileArrangement::First);
    assert_eq!(c.resolution, 640);
}

#[test]
fn parse_leading_zeros() {
    let a = args(&["uri", "--creds", "a:b", "-t", "005"]);
    assert_eq!(parse_args(&a).unwrap().tile_side_len, 5);
}

#[test]
fn parse_missing_credentials() {
    assert_eq!(parse_args(&args(&["uri"])).err(), Some(ArgError::MissingCredentials));
}

#[test]
fn parse_missing_playlist() {
    assert_eq!(parse_args(&args(&["--creds", "a:b"])).err(), Some(ArgError::MissingPlaylistUri));
}

#[test]
fn parse_unknown_flag() {
    let a = args(&["uri", "--creds", "a:b", "--frame", "x"]);
    assert_eq!(parse_args(&a).err(), Some(ArgError::UnknownArgument));
}

#[test]
fn parse_invalid_number() {
    let a = args(&["uri", "--creds", "a:b", "-t", "five"]);
    assert_eq!(parse_args(&a).err(), Some(ArgError::InvalidNumber));
}

#[test]
fn parse_out_of_range() {
    for bad in [["-t", "0"], ["-t", "129"], ["-r", "15"], ["-r", "5000"]] {
        let a = args(&["uri", "--creds", "a:b", bad[0], bad[1]]);
        assert_eq!(parse_args(&a).err(), Some(ArgError::OutOfRange), "case {bad:?}");
    }
}

#[test]
fn parse_missing_value() {
    let a = args(&["uri", "--creds", "a:b", "--res"]);
    assert_eq!(parse_args(&a).err(), Some(ArgError::MissingValue));
}

#[test]
fn parse_duplicate_flag() {
    let a = args(&["uri", "--creds", "a:b", "-t", "2", "--tiles", "3"]);
    assert_eq!(parse_args(&a).err(), Some(ArgError::DuplicateArgument));
}

#[test]
fn parse_second_positional() {
    let a = args(&["uri", "other", "--creds", "a:b"]);
    assert_eq!(parse_args(&a).err(), Some(ArgError::UnexpectedArgument));
}

#[test]
fn parse_invalid_arrangement() {
    let a = args(&["uri", "--creds", "a:b", "-a", "spiral"]);
    assert_eq!(parse_args(&a).err(), Some(ArgError::InvalidArrangement));
}

#[test]
fn parse_range_boundaries() {
    let a = args(&["uri", "--creds", "a:b", "-t", "128", "-r", "4096"]);
    let c = parse_args(&a).unwrap();
    assert_eq!(c.tile_side_len, 128);
    assert_eq!(c.resolution, 4096);
    let a = args(&["uri", "--creds", "a:b", "-t", "1", "-r", "16"]);
    let c = parse_args(&a).unwrap();
    assert_eq!(c.tile_side_len, 1);
    assert_eq!(c.resolution, 16);
}

#[test]
fn parse_huge_number_is_out_of_range() {
    let a = args(&["uri", "--creds", "a:b", "-r", "99999999999999999999"]);
    assert_eq!(parse_args(&a).err(), Some(ArgError::OutOfRange));
}
