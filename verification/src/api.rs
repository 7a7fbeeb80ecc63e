//! The mosaic pipeline on plain album data: deduplication of the playlist's
//! albums in first-seen order, derivation of the square grid from the
//! requested side length and the number of distinct albums, arrangement of
//! the albums over the grid, and selection of the best cover variant of each
//! arranged album.

use vstd::prelude::*;
use vstd::seq_lib::lemma_multiset_commutative;
use rand::seq::SliceRandom;
use crate::args::TileArrangement;
use crate::numeric::{floor_sqrt, isqrt, lemma_floor_sqrt, lemma_floor_sqrt_unique};

verus! {

/// Why a run of the pipeline failed.
#[derive(Debug, Clone, Copy, PartialEq, Eq, Structural)]
pub enum MosaicError {
    /// The playlist stream could not be read.
    SourceFetchFailed,
    /// The playlist reference is malformed.
    InvalidCollectionReference,
    /// An album selected for placement has no cover variant.
    NoCoverAvailable,
    /// A cover's bytes could not be retrieved.
    CoverFetchFailed,
    /// A cover's bytes could not be parsed as an image.
    CoverDecodeFailed,
    /// The finished mosaic could not be written out.
    OutputWriteFailed,
}

/// One renderable artwork option of an album; the pixel dimensions may be
/// unknown.
pub struct CoverVariant {
    pub url: String,
    pub width: Option<u32>,
    pub height: Option<u32>,
}

/// A distinct album: its catalog identity and its cover variants.
pub struct AlbumRecord {
    pub id: String,
    pub variants: Vec<CoverVariant>,
}

/// One entry of the playlist stream as the caller hands it in. The album
/// identity is absent where the entry does not resolve to an album (it is
/// not a track, or its album carries no identity).
pub struct PlaylistEntry {
    pub album_id: Option<String>,
    pub cover_variants: Vec<CoverVariant>,
}

/// Some album in `albums` has the identity `id`.
pub open spec fn has_id(albums: Seq<AlbumRecord>, id: Seq<char>) -> bool {
    exists|i: int| 0 <= i < albums.len() && (#[trigger] albums[i]).id@ == id
}

/// The album sequence that deduplication yields: one record per distinct
/// identity, at its first appearance; entries without an identity are
/// skipped.
pub open spec fn dedup_spec(entries: Seq<PlaylistEntry>) -> Seq<AlbumRecord>
    decreases entries.len(),
{
    if entries.len() == 0 {
        Seq::empty()
    } else {
        let prev = dedup_spec(entries.drop_last());
        match entries.last().album_id {
            Some(id) => if has_id(prev, id@) {
                prev
            } else {
                prev.push(AlbumRecord { id, variants: entries.last().cover_variants })
            },
            None => prev,
        }
    }
}

fn contains_id(albums: &Vec<AlbumRecord>, id: &String) -> (b: bool)
    ensures
        b == has_id(albums@, id@),
{
    let mut i: usize = 0;
    while i < albums.len()
        invariant
            i <= albums@.len(),
            forall|j: int| 0 <= j < i ==> (#[trigger] albums@[j]).id@ != id@,
        decreases albums@.len() - i,
    {
        if albums[i].id.eq(id) {
            assert(albums@[i as int].id@ == id@);
            return true;
        }
        i = i + 1;
    }
    false
}

/// Deduplicate the playlist's entries: keep one album per distinct identity,
/// in order of first appearance; entries without an identity are skipped.
pub fn dedup_albums(entries: Vec<PlaylistEntry>) -> (r: Vec<AlbumRecord>)
    ensures
        r@ == dedup_spec(entries@),
{
    let ghost all = entries@;
    let mut entries = entries;
    let mut out: Vec<AlbumRecord> = Vec::new();
    let ghost i: int = 0;
    while entries.len() > 0
        invariant
            0 <= i <= all.len(),
            entries@ == all.skip(i),
            out@ == dedup_spec(all.take(i)),
        decreases entries@.len(),
    {
        let e = entries.remove(0);
        proof {
            assert(e == all[i]);
            assert(all.take(i + 1).drop_last() =~= all.take(i));
            assert(all.take(i + 1).last() == all[i]);
            assert(entries@ =~= all.skip(i + 1));
        }
        match e.album_id {
            Some(id) => {
                if !contains_id(&out, &id) {
                    out.push(AlbumRecord { id, variants: e.cover_variants });
                }
            },
            None => {},
        }
        proof {
            i = i + 1;
        }
    }
    proof {
        assert(all.take(all.len() as int) =~= all);
    }
    out
}

/// Entry `e` resolves to the album identity `id`.
pub open spec fn entry_has(e: PlaylistEntry, id: Seq<char>) -> bool {
    e.album_id is Some && e.album_id->0@ == id
}

/// `k` is the position where `id` first appears in the stream.
pub open spec fn is_first_occurrence(entries: Seq<PlaylistEntry>, id: Seq<char>, k: int) -> bool {
    &&& 0 <= k < entries.len()
    &&& entry_has(entries[k], id)
    &&& forall|m: int| 0 <= m < k ==> !entry_has(#[trigger] entries[m], id)
}

/// The position where `id` first appears in the stream.
pub open spec fn first_pos(entries: Seq<PlaylistEntry>, id: Seq<char>) -> int {
    choose|k: int| is_first_occurrence(entries, id, k)
}

/// A first occurrence is unique.
pub proof fn lemma_first_occurrence_unique(
    entries: Seq<PlaylistEntry>,
    id: Seq<char>,
    a: int,
    b: int,
)
    requires
        is_first_occurrence(entries, id, a),
        is_first_occurrence(entries, id, b),
    ensures
        a == b,
{
    if a < b {
        assert(!entry_has(entries[a], id));
    }
    if b < a {
        assert(!entry_has(entries[b], id));
    }
}

/// Each identity of the deduplicated sequence appears once: the identities
/// are pairwise distinct.
pub proof fn lemma_dedup_distinct(entries: Seq<PlaylistEntry>)
    ensures
        forall|i: int, j: int|
            0 <= i < j < dedup_spec(entries).len() ==> (#[trigger] dedup_spec(entries)[i]).id@
                != (#[trigger] dedup_spec(entries)[j]).id@,
    decreases entries.len(),
{
    if entries.len() > 0 {
        let pre = entries.drop_last();
        lemma_dedup_distinct(pre);
        let prev = dedup_spec(pre);
        let out = dedup_spec(entries);
        match entries.last().album_id {
            Some(id) => {
                if !has_id(prev, id@) {
                    assert forall|i: int, j: int| 0 <= i < j < out.len() implies (#[trigger] out[
                    i]).id@ != (#[trigger] out[j]).id@ by {
                        assert(out[i] == prev[i]);
                        if j < prev.len() {
                            assert(out[j] == prev[j]);
                        } else {
                            assert(out[j].id@ == id@);
                            if prev[i].id@ == id@ {
                                assert(has_id(prev, id@));
                            }
                        }
                    }
                }
            },
            None => {},
        }
    }
}

/// Every identity of the stream stands in the deduplicated sequence.
pub proof fn lemma_dedup_complete(entries: Seq<PlaylistEntry>)
    ensures
        forall|k: int|
            0 <= k < entries.len() && (#[trigger] entries[k]).album_id is Some ==> has_id(
                dedup_spec(entries), entries[k].album_id->0@),
    decreases entries.len(),
{
    if entries.len() > 0 {
        let pre = entries.drop_last();
        lemma_dedup_complete(pre);
        let prev = dedup_spec(pre);
        let out = dedup_spec(entries);
        assert forall|x: Seq<char>| has_id(prev, x) implies has_id(out, x) by {
            let i = choose|i: int| 0 <= i < prev.len() && (#[trigger] prev[i]).id@ == x;
            assert(out[i].id@ == x);
        }
        assert forall|k: int|
            0 <= k < entries.len() && (#[trigger] entries[k]).album_id is Some implies has_id(
            out, entries[k].album_id->0@) by {
            if k < entries.len() - 1 {
                assert(entries[k] == pre[k]);
                assert(has_id(prev, pre[k].album_id->0@));
            } else {
                let id = entries[k].album_id->0;
                if !has_id(prev, id@) {
                    assert(out[out.len() - 1].id@ == id@);
                }
            }
        }
    }
}

/// The deduplicated sequence keeps the stream's order of first appearance:
/// each album stands for its identity's first occurrence in the stream,
/// and those positions grow from album to album.
pub proof fn lemma_dedup_order(entries: Seq<PlaylistEntry>)
    ensures
        forall|i: int|
            0 <= i < dedup_spec(entries).len() ==> is_first_occurrence(entries, (
            #[trigger] dedup_spec(entries)[i]).id@, first_pos(entries, dedup_spec(
                entries)[i].id@)),
        forall|i: int, j: int|
            0 <= i < j < dedup_spec(entries).len() ==> first_pos(entries, (#[trigger] dedup_spec(
                entries)[i]).id@) < first_pos(entries, (#[trigger] dedup_spec(entries)[j]).id@),
    decreases entries.len(),
{
    if entries.len() > 0 {
        let pre = entries.drop_last();
        lemma_dedup_order(pre);
        lemma_dedup_complete(pre);
        let prev = dedup_spec(pre);
        let out = dedup_spec(entries);
        assert(entries =~= pre.push(entries.last()));
        assert forall|x: Seq<char>, k: int| is_first_occurrence(pre, x, k) implies
            is_first_occurrence(entries, x, k) && first_pos(entries, x) == k by {
            assert(entries[k] == pre[k]);
            assert(forall|m: int| 0 <= m < k ==> #[trigger] entries[m] == pre[m]);
            lemma_first_occurrence_unique(entries, x, k, first_pos(entries, x));
        }
        assert forall|i: int| 0 <= i < prev.len() implies is_first_occurrence(entries, (
        #[trigger] prev[i]).id@, first_pos(entries, prev[i].id@)) && first_pos(entries,
            prev[i].id@) == first_pos(pre, prev[i].id@) by {
            assert(is_first_occurrence(pre, prev[i].id@, first_pos(pre, prev[i].id@)));
        }
        match entries.last().album_id {
            Some(id) => {
                if !has_id(prev, id@) {
                    let last = entries.len() - 1;
                    assert forall|m: int| 0 <= m < last implies !entry_has(
                        #[trigger] entries[m], id@) by {
                        assert(entries[m] == pre[m]);
                        if entry_has(pre[m], id@) {
                            assert(has_id(prev, pre[m].album_id->0@));
                        }
                    }
                    assert(is_first_occurrence(entries, id@, last));
                    lemma_first_occurrence_unique(entries, id@, last, first_pos(entries, id@));
                    assert forall|i: int| 0 <= i < out.len() - 1 implies first_pos(entries, (
                    #[trigger] out[i]).id@) < last by {
                        assert(out[i] == prev[i]);
                        assert(first_pos(entries, prev[i].id@) == first_pos(pre, prev[i].id@));
                        assert(is_first_occurrence(pre, prev[i].id@, first_pos(pre, prev[
                        i].id@)));
                    }
                    assert(out[out.len() - 1].id@ == id@);
                    assert forall|i: int| 0 <= i < out.len() implies is_first_occurrence(
                        entries, (#[trigger] out[i]).id@, first_pos(entries, out[i].id@)) by {
                        if i < out.len() - 1 {
                            assert(out[i] == prev[i]);
                        }
                    }
                }
            },
            None => {},
        }
    }
}

/// Relies on rand's `SliceRandom::shuffle` (through `Vec`'s deref to a
/// slice): it permutes the slice in place, drawing the permutation from the
/// thread-local generator, so the new contents are a rearrangement of the
/// old ones.
#[verifier::external_body]
fn shuffle_albums(albums: &mut Vec<AlbumRecord>)
    ensures
        final(albums)@.len() == old(albums)@.len(),
        final(albums)@.to_multiset() == old(albums)@.to_multiset(),
{
    albums.shuffle(&mut rand::rng());
}

proof fn lemma_take_submultiset(s: Seq<AlbumRecord>, n: int)
    requires
        0 <= n <= s.len(),
    ensures
        forall|a: AlbumRecord|
            #[trigger] s.take(n).to_multiset().count(a) <= s.to_multiset().count(a),
{
    assert(s =~= s.take(n) + s.skip(n));
    lemma_multiset_commutative(s.take(n), s.skip(n));
    assert(forall|a: AlbumRecord|
        #[trigger] s.take(n).to_multiset().count(a) <= s.to_multiset().count(a)) by {
        assert(forall|a: AlbumRecord| #[trigger] s.to_multiset().count(a)
            == s.take(n).to_multiset().count(a) + s.skip(n).to_multiset().count(a));
    }
}

/// Select and order the albums that fill the grid: exactly
/// `total_tile_count` of them, per the arrangement policy. `First` keeps the
/// leading albums, `Last` keeps the trailing window in its relative order,
/// `Random` draws the subset and order by a uniform shuffle.
pub fn arrange_albums(
    albums: Vec<AlbumRecord>,
    total_tile_count: usize,
    arrangement: TileArrangement,
) -> (r: Vec<AlbumRecord>)
    requires
        total_tile_count <= albums@.len(),
    ensures
        r@.len() == total_tile_count,
        arrangement == TileArrangement::First ==> r@ == albums@.take(total_tile_count as int),
        arrangement == TileArrangement::First && total_tile_count == albums@.len() ==> r@
            == albums@,
        arrangement == TileArrangement::Last ==> r@ == albums@.skip(
            albums@.len() - total_tile_count,
        ),
        forall|a: AlbumRecord| #[trigger]
            r@.to_multiset().count(a) <= albums@.to_multiset().count(a),
        total_tile_count == albums@.len() ==> r@.to_multiset() == albums@.to_multiset(),
{
    let ghost orig = albums@;
    let mut albums = albums;
    let r: Vec<AlbumRecord> = match arrangement {
        TileArrangement::First => {
            albums.truncate(total_tile_count);
            albums
        },
        TileArrangement::Last => {
            let tail = albums.split_off(albums.len() - total_tile_count);
            tail
        },
        TileArrangement::Random => {
            shuffle_albums(&mut albums);
            let ghost shuffled = albums@;
            albums.truncate(total_tile_count);
            proof {
                lemma_take_submultiset(shuffled, total_tile_count as int);
                if total_tile_count == shuffled.len() {
                    assert(shuffled.take(shuffled.len() as int) =~= shuffled);
                }
            }
            albums
        },
    };
    proof {
        match arrangement {
            TileArrangement::First => {
                lemma_take_submultiset(orig, total_tile_count as int);
                if total_tile_count == orig.len() {
                    assert(orig.take(orig.len() as int) =~= orig);
                }
            },
            TileArrangement::Last => {
                assert(orig =~= orig.take(orig.len() - total_tile_count) + orig.skip(
                    orig.len() - total_tile_count,
                ));
                lemma_multiset_commutative(
                    orig.take(orig.len() - total_tile_count),
                    orig.skip(orig.len() - total_tile_count),
                );
            },
            TileArrangement::Random => {},
        }
    }
    r
}

/// How square-safe a cover variant is: the smaller of its dimensions, an
/// unknown dimension counting as zero.
pub open spec fn variant_score(v: CoverVariant) -> u32 {
    let w = match v.width {
        Some(w) => w,
        None => 0u32,
    };
    let h = match v.height {
        Some(h) => h,
        None => 0u32,
    };
    if w <= h {
        w
    } else {
        h
    }
}

/// Index of the first cover variant with maximal score.
pub open spec fn best_variant(vs: Seq<CoverVariant>) -> int
    decreases vs.len(),
{
    if vs.len() <= 1 {
        0
    } else {
        let b = best_variant(vs.drop_last());
        if variant_score(vs.last()) > variant_score(vs[b]) {
            vs.len() - 1
        } else {
            b
        }
    }
}

/// `best_variant` is in range, maximal, and the first of the maxima.
pub proof fn lemma_best_variant(vs: Seq<CoverVariant>)
    requires
        vs.len() >= 1,
    ensures
        0 <= best_variant(vs) < vs.len(),
        forall|i: int| 0 <= i < vs.len() ==> variant_score(#[trigger] vs[i]) <= variant_score(
            vs[best_variant(vs)],
        ),
        forall|i: int| 0 <= i < best_variant(vs) ==> variant_score(#[trigger] vs[i])
            < variant_score(vs[best_variant(vs)]),
    decreases vs.len(),
{
    if vs.len() > 1 {
        let pre = vs.drop_last();
        lemma_best_variant(pre);
        let b = best_variant(pre);
        let w = best_variant(vs);
        assert(vs.last() == vs[vs.len() - 1]);
        assert forall|i: int|
            0 <= i < vs.len() implies variant_score(#[trigger] vs[i]) <= variant_score(
            vs[w],
        ) by {
            if i < vs.len() - 1 {
                assert(vs[i] == pre[i]);
                assert(variant_score(pre[i]) <= variant_score(pre[b]));
                assert(pre[b] == vs[b]);
            }
        }
        assert forall|i: int| 0 <= i < w implies variant_score(#[trigger] vs[i]) < variant_score(
            vs[w],
        ) by {
            assert(vs[i] == pre[i]);
            if w == vs.len() - 1 {
                assert(variant_score(pre[i]) <= variant_score(pre[b]));
                assert(pre[b] == vs[b]);
            } else {
                assert(variant_score(pre[i]) < variant_score(pre[b]));
            }
        }
    }
}

/// The URL of the cover variant chosen for an album.
pub open spec fn chosen_url(a: AlbumRecord) -> Seq<char> {
    a.variants@[best_variant(a.variants@)].url@
}

fn best_variant_url(variants: &Vec<CoverVariant>) -> (r: String)
    requires
        variants@.len() >= 1,
    ensures
        r@ == variants@[best_variant(variants@)].url@,
{
    let mut best: usize = 0;
    let mut best_score: u32 = {
        let v = &variants[0];
        let w = match v.width {
            Some(w) => w,
            None => 0u32,
        };
        let h = match v.height {
            Some(h) => h,
            None => 0u32,
        };
        if w <= h {
            w
        } else {
            h
        }
    };
    assert(variants@.take(1).drop_last() =~= variants@.take(0));
    assert(best_score == variant_score(variants@[0]));
    let mut i: usize = 1;
    while i < variants.len()
        invariant
            1 <= i <= variants@.len(),
            0 <= best < i,
            best == best_variant(variants@.take(i as int)),
            best_score == variant_score(variants@[best as int]),
        decreases variants@.len() - i,
    {
        let v = &variants[i];
        let w = match v.width {
            Some(w) => w,
            None => 0u32,
        };
        let h = match v.height {
            Some(h) => h,
            None => 0u32,
        };
        let score = if w <= h {
            w
        } else {
            h
        };
        assert(score == variant_score(variants@[i as int]));
        proof {
            assert(variants@.take(i + 1).drop_last() =~= variants@.take(i as int));
            assert(variants@.take(i + 1).last() == variants@[i as int]);
        }
        if score > best_score {
            best = i;
            best_score = score;
        }
        i = i + 1;
    }
    proof {
        assert(variants@.take(variants@.len() as int) =~= variants@);
    }
    variants[best].url.clone()
}

/// Pick each album's best cover: the first variant of maximal score. Fails
/// with `NoCoverAvailable` exactly when some album has no variant at all.
pub fn select_cover_urls(albums: &Vec<AlbumRecord>) -> (r: Result<Vec<String>, MosaicError>)
    ensures
        match r {
            Ok(urls) => {
                &&& urls@.len() == albums@.len()
                &&& forall|i: int|
                    0 <= i < albums@.len() ==> (#[trigger] albums@[i]).variants@.len() >= 1
                &&& forall|i: int|
                    0 <= i < albums@.len() ==> (#[trigger] urls@[i])@ == chosen_url(albums@[i])
            },
            Err(e) => {
                &&& e == MosaicError::NoCoverAvailable
                &&& exists|i: int|
                    0 <= i < albums@.len() && (#[trigger] albums@[i]).variants@.len() == 0
            },
        },
{
    let mut urls: Vec<String> = Vec::new();
    let mut i: usize = 0;
    while i < albums.len()
        invariant
            i <= albums@.len(),
            urls@.len() == i,
            forall|j: int| 0 <= j < i ==> (#[trigger] albums@[j]).variants@.len() >= 1,
            forall|j: int| 0 <= j < i ==> (#[trigger] urls@[j])@ == chosen_url(albums@[j]),
        decreases albums@.len() - i,
    {
        let variants = &albums[i].variants;
        if variants.len() == 0 {
            assert(albums@[i as int].variants@.len() == 0);
            return Err(MosaicError::NoCoverAvailable);
        }
        let url = best_variant_url(variants);
        urls.push(url);
        i = i + 1;
    }
    Ok(urls)
}

/// The grid's side length: the requested one, capped by the square root of
/// the number of available albums.
pub open spec fn grid_side(requested: int, available: int) -> int {
    if requested <= floor_sqrt(available) {
        requested
    } else {
        floor_sqrt(available)
    }
}

/// Derive the grid from the requested tile side length and the number of
/// available albums: the side length and the total tile count. The grid
/// never needs more albums than are available.
pub fn grid_dimensions(requested_tile_side_len: u32, available_count: usize) -> (r: (u32, u32))
    requires
        1 <= requested_tile_side_len <= 128,
    ensures
        r.0 == grid_side(requested_tile_side_len as int, available_count as int),
        r.1 == r.0 * r.0,
        r.0 * r.0 <= available_count,
        r.0 <= requested_tile_side_len,
{
    let s = isqrt(available_count);
    proof {
        lemma_floor_sqrt(available_count as int);
        lemma_floor_sqrt_unique(s as int, floor_sqrt(available_count as int),
            available_count as int);
    }
    let side: u32 = if s >= requested_tile_side_len as usize {
        requested_tile_side_len
    } else {
        s as u32
    };
    assert((side as int) * (side as int) <= available_count as int) by (nonlinear_arith)
        requires
            side as int <= s as int,
            (s as int) * (s as int) <= available_count as int,
            side as int >= 0,
    ;
    assert((side as int) * (side as int) <= 16384) by (nonlinear_arith)
        requires
            0 <= side as int <= 128,
    ;
    (side, side * side)
}

/// Derive the grid for the deduplicated albums, arrange them over it, and
/// pick one cover URL per tile, in placement order.
pub fn get_cover_urls(
    albums: Vec<AlbumRecord>,
    tile_side_len: u32,
    arrangement: TileArrangement,
) -> (r: Result<Vec<String>, MosaicError>)
    requires
        1 <= tile_side_len <= 128,
    ensures
        ({
            let side = grid_side(tile_side_len as int, albums@.len() as int);
            let count = side * side;
            match r {
                Ok(urls) => {
                    &&& urls@.len() == count
                    &&& arrangement == TileArrangement::First ==> forall|i: int|
                        0 <= i < count ==> (#[trigger] urls@[i])@ == chosen_url(albums@[i])
                    &&& arrangement == TileArrangement::Last ==> forall|i: int|
                        0 <= i < count ==> (#[trigger] urls@[i])@ == chosen_url(
                            albums@[albums@.len() - count + i],
                        )
                    &&& forall|i: int| #![trigger urls@[i]]
                        0 <= i < count ==> albums@.map_values(|a: AlbumRecord| chosen_url(a))
                            .contains(urls@[i]@)
                },
                Err(e) => {
                    &&& e == MosaicError::NoCoverAvailable
                    &&& exists|j: int|
                        0 <= j < albums@.len() && (#[trigger] albums@[j]).variants@.len() == 0
                },
            }
        }),
        (forall|j: int| 0 <= j < albums@.len() ==> (#[trigger] albums@[j]).variants@.len() >= 1)
            ==> r is Ok,
{
    let ghost all = albums@;
    let (side, count) = grid_dimensions(tile_side_len, albums.len());
    let arranged = arrange_albums(albums, count as usize, arrangement);
    let r = select_cover_urls(&arranged);
    proof {
        let arr = arranged@;
        assert forall|i: int| 0 <= i < arr.len() implies all.contains(#[trigger] arr[i]) by {
            arr.to_multiset_ensures();
            all.to_multiset_ensures();
            assert(arr.contains(arr[i]));
            assert(arr.to_multiset().count(arr[i]) <= all.to_multiset().count(arr[i]));
        }
        if r is Ok {
            let urls = r->Ok_0;
            let chosen = all.map_values(|a: AlbumRecord| chosen_url(a));
            assert forall|i: int| #![trigger urls@[i]] 0 <= i < arr.len() implies chosen.contains(
                urls@[i]@,
            ) by {
                let j = choose|j: int| 0 <= j < all.len() && all[j] == arr[i];
                assert(urls@[i]@ == chosen_url(arr[i]));
                assert(chosen[j] == chosen_url(all[j]));
                assert(chosen[j] == urls@[i]@);
            }
        } else {
            let i = choose|i: int|
                0 <= i < arr.len() && (#[trigger] arr[i]).variants@.len() == 0;
            let j = choose|j: int| 0 <= j < all.len() && all[j] == arr[i];
            assert(all[j].variants@.len() == 0);
        }
        if forall|j: int| 0 <= j < all.len() ==> (#[trigger] all[j]).variants@.len() >= 1 {
            assert forall|i: int|
                0 <= i < arr.len() implies (#[trigger] arr[i]).variants@.len() >= 1 by {
                let j = choose|j: int| 0 <= j < all.len() && all[j] == arr[i];
                assert(all[j].variants@.len() >= 1);
            }
        }
    }
    r
}

} // verus!
