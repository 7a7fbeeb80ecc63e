use album_mosaic::api::{
    dedup_albums, arrange_albums, get_cover_urls, grid_dimensions, select_cover_urls,
    AlbumRecord, CoverVariant, MosaicError, PlaylistEntry,
};
use album_mosaic::args::TileArrangement;

fn variant(url: &str, w: Option<u32>, h: Option<u32>) -> CoverVariant {
    CoverVariant { url: url.to_string(), width: w, height: h }
}

fn album(id: &str, variants: Vec<CoverVariant>) -> AlbumRecord {
    AlbumRecord { id: id.to_string(), variants }
}

fn entry(id: Option<&str>, variants: Vec<CoverVariant>) -> PlaylistEntry {
    PlaylistEntry { album_id: id.map(|s| s.to_string()), cover_variants: variants }
}

fn simple_album(id: &str) -> AlbumRecord {
    album(id, vec![variant(&format!("https://img/{id}"), Some(300), Some(300))])
}

#[test]
fn dedup_first_seen_order() {
    let entries = vec![
        entry(Some("a"), vec![variant("a1", Some(10), Some(10))]),
        entry(Some("b"), vec![variant("b1", Some(20), Some(20))]),
        entry(Some("a"), vec![variant("a2", Some(30), Some(30))]),
        entry(None, vec![variant("skip", Some(99), Some(99))]),
        entry(Some("c"), vec![]),
        entry(Some("b"), vec![]),
    ];
    let albums = dedup_albums(entries);
    let ids: Vec<&str> = albums.iter().map(|a| a.id.as_str()).collect();
    assert_eq!(ids, vec!["a", "b", "c"]);
    // the first occurrence's variants are the ones kept
    assert_eq!(albums[0].variants[0].url, "a1");
    assert_eq!(albums[1].variants[0].url, "b1");
}

#[test]
fn dedup_skips_unidentified() {
    let entries = vec![entry(None, vec![]), entry(None, vec![variant("x", None, None)])];
    let albums = dedup_albums(entries);
    assert_eq!(albums.len(), 0);
}

#[test]
fn grid_sizing() {
    assert_eq!(grid_dimensions(4, 10), (3, 9));
    assert_eq!(grid_dimensions(2, 100), (2, 4));
    assert_eq!(grid_dimensions(5, 0), (0, 0));
    assert_eq!(grid_dimensions(1, 1), (1, 1));
    assert_eq!(grid_dimensions(3, 9), (3, 9));
    assert_eq!(grid_dimensions(128, 20000), (128, 16384));
    assert_eq!(grid_dimensions(2, 3), (1, 1));
}

#[test]
fn arrange_first_identity() {
    let albums = vec![simple_album("a"), simple_album("b"), simple_album("c")];
    let arranged = arrange_albums(albums, 3, TileArrangement::First);
    let ids: Vec<&str> = arranged.iter().map(|a| a.id.as_str()).collect();
    assert_eq!(ids, vec!["a", "b", "c"]);
}

#[test]
fn arrange_first_truncates() {
    let albums = vec![simple_album("a"), simple_album("b"), simple_album("c")];
    let arranged = arrange_albums(albums, 2, TileArrangement::First);
    let ids: Vec<&str> = arranged.iter().map(|a| a.id.as_str()).collect();
    assert_eq!(ids, vec!["a", "b"]);
}

#[test]
fn arrange_last_window() {
    let albums =
        vec![simple_album("a"), simple_album("b"), simple_album("c"), simple_album("d"),
            simple_album("e")];
    let arranged = arrange_albums(albums, 3, TileArrangement::Last);
    let ids: Vec<&str> = arranged.iter().map(|a| a.id.as_str()).collect();
    assert_eq!(ids, vec!["c", "d", "e"]);
}

#[test]
fn arrange_last_full() {
    let albums = vec![simple_album("a"), simple_album("b")];
    let arranged = arrange_albums(albums, 2, TileArrangement::Last);
    let ids: Vec<&str> = arranged.iter().map(|a| a.id.as_str()).collect();
    assert_eq!(ids, vec!["a", "b"]);
}

#[test]
fn arrange_random_size() {
    let albums = vec![
        simple_album("a"), simple_album("b"), simple_album("c"),
        simple_album("d"), simple_album("e"), simple_album("f"),
    ];
    let arranged = arrange_albums(albums, 4, TileArrangement::Random);
    assert_eq!(arranged.len(), 4);
    let source = ["a", "b", "c", "d", "e", "f"];
    for a in arranged.iter() {
        assert!(source.contains(&a.id.as_str()));
    }
    for i in 0..arranged.len() {
        for j in (i + 1)..arranged.len() {
            assert_ne!(arranged[i].id, arranged[j].id);
        }
    }
}

#[test]
fn select_best_variant() {
    let albums = vec![album(
        "a",
        vec![
            variant("small", Some(64), Some(64)),
            variant("tall", Some(600), Some(100)),
            variant("big", Some(640), Some(640)),
            variant("unknown", None, Some(900)),
        ],
    )];
    let urls = select_cover_urls(&albums).unwrap();
    assert_eq!(urls, vec!["big".to_string()]);
}

#[test]
fn select_first_of_tied_maxima() {
    let albums = vec![album(
        "a",
        vec![
            variant("first_max", Some(300), Some(300)),
            variant("second_max", Some(300), Some(300)),
        ],
    )];
    let urls = select_cover_urls(&albums).unwrap();
    assert_eq!(urls, vec!["first_max".to_string()]);
}

#[test]
fn select_no_cover_fails() {
    let albums = vec![simple_album("a"), album("empty", vec![])];
    assert_eq!(select_cover_urls(&albums), Err(MosaicError::NoCoverAvailable));
}

#[test]
fn cover_urls_first_arrangement() {
    let albums: Vec<AlbumRecord> =
        (0..10).map(|i| simple_album(&format!("id{i}"))).collect();
    let urls = get_cover_urls(albums, 4, TileArrangement::First).unwrap();
    assert_eq!(urls.len(), 9);
    for (i, u) in urls.iter().enumerate() {
        assert_eq!(u, &format!("https://img/id{i}"));
    }
}

#[test]
fn cover_urls_fatal_on_missing_cover() {
    let mut albums: Vec<AlbumRecord> =
        (0..9).map(|i| simple_album(&format!("id{i}"))).collect();
    albums[4].variants.clear();
    let r = get_cover_urls(albums, 3, TileArrangement::First);
    assert_eq!(r, Err(MosaicError::NoCoverAvailable));
}

#[test]
fn arrange_last_preserves_relative_order_after_dedup() {
    let entries = vec![
        entry(Some("a"), vec![variant("a1", Some(1), Some(1))]),
        entry(Some("b"), vec![variant("b1", Some(1), Some(1))]),
        entry(Some("a"), vec![variant("a2", Some(1), Some(1))]),
        entry(Some("c"), vec![variant("c1", Some(1), Some(1))]),
        entry(Some("d"), vec![variant("d1", Some(1), Some(1))]),
    ];
    let albums = dedup_albums(entries);
    let arranged = arrange_albums(albums, 1, TileArrangement::Last);
    let ids: Vec<&str> = arranged.iter().map(|a| a.id.as_str()).collect();
    assert_eq!(ids, vec!["d"]);
}
