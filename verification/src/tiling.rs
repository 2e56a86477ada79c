//! Documents that tile an input: pieces of it kept as they are, and pieces of
//! it offloaded into the store. Whatever is offloaded, the document rebuilds
//! the input.
use crate::cas::stored;
use crate::doc::{fault, rebuilt, resolved, Fault, SegmentView};
use crate::hash::content_key;
use vstd::prelude::*;

verus! {

/// A piece of the input.
pub enum Piece {
    /// Left in the document as it is.
    Kept(Seq<u8>),
    /// Moved into the store; the document shows `summary` for it.
    Offloaded { original: Seq<u8>, summary: Seq<char> },
}

/// The bytes of one piece.
pub open spec fn piece_bytes(piece: Piece) -> Seq<u8> {
    match piece {
        Piece::Kept(bytes) => bytes,
        Piece::Offloaded { original, .. } => original,
    }
}

/// The segment that stands for one piece.
pub open spec fn piece_segment(piece: Piece) -> SegmentView {
    match piece {
        Piece::Kept(bytes) => SegmentView::Verbatim(bytes),
        Piece::Offloaded { original, summary } => SegmentView::Ref {
            key: content_key(original),
            summary,
            original_len: original.len(),
        },
    }
}

/// The document of the pieces.
pub open spec fn tiled(pieces: Seq<Piece>) -> Seq<SegmentView> {
    pieces.map_values(|p: Piece| piece_segment(p))
}

/// The input that the pieces make up.
pub open spec fn whole(pieces: Seq<Piece>) -> Seq<u8>
    decreases pieces.len(),
{
    if pieces.len() == 0 {
        Seq::empty()
    } else {
        whole(pieces.drop_last()) + piece_bytes(pieces.last())
    }
}

/// The regions that the pieces move into the store, in order.
pub open spec fn regions(pieces: Seq<Piece>) -> Seq<Seq<u8>>
    decreases pieces.len(),
{
    if pieces.len() == 0 {
        Seq::empty()
    } else {
        match pieces.last() {
            Piece::Kept(_) => regions(pieces.drop_last()),
            Piece::Offloaded { original, .. } => regions(pieces.drop_last()).push(original),
        }
    }
}

/// What a store holds after all of `regions` were put into it in order.
pub open spec fn stored_all(
    objects: Map<Seq<char>, Seq<u8>>,
    regions: Seq<Seq<u8>>,
) -> Map<Seq<char>, Seq<u8>>
    decreases regions.len(),
{
    if regions.len() == 0 {
        objects
    } else {
        stored(stored_all(objects, regions.drop_last()), regions.last())
    }
}

/// No two of the regions share a key without being the same bytes, nor does
/// one share a key with other bytes that the store already holds. (Two byte
/// strings that do are a collision of SHA-256.)
pub open spec fn collision_free(
    objects: Map<Seq<char>, Seq<u8>>,
    regions: Seq<Seq<u8>>,
) -> bool {
    &&& forall|i: int|
        0 <= i < regions.len() && objects.dom().contains(content_key(#[trigger] regions[i]))
            ==> objects[content_key(regions[i])] == regions[i]
    &&& forall|i: int, j: int|
        0 <= i < regions.len() && 0 <= j < regions.len() && content_key(#[trigger] regions[i])
            == content_key(#[trigger] regions[j]) ==> regions[i] == regions[j]
}

/// A store keeps what it has: putting more into it changes no key that is
/// there.
pub proof fn law_store_only_grows(
    objects: Map<Seq<char>, Seq<u8>>,
    regions: Seq<Seq<u8>>,
    key: Seq<char>,
)
    requires
        objects.dom().contains(key),
    ensures
        stored_all(objects, regions).dom().contains(key),
        stored_all(objects, regions)[key] == objects[key],
    decreases regions.len(),
{
    if regions.len() > 0 {
        law_store_only_grows(objects, regions.drop_last(), key);
    }
}

/// Putting the same bytes twice is the same as putting them once.
pub proof fn law_put_is_idempotent(objects: Map<Seq<char>, Seq<u8>>, bytes: Seq<u8>)
    ensures
        stored(stored(objects, bytes), bytes) == stored(objects, bytes),
        stored(objects, bytes).dom().contains(content_key(bytes)),
{
}

/// A store that holds each object under its own hash goes on to do so.
pub proof fn law_put_keeps_store_honest(objects: Map<Seq<char>, Seq<u8>>, bytes: Seq<u8>)
    requires
        forall|key: Seq<char>| #[trigger]
            objects.dom().contains(key) ==> content_key(objects[key]) == key,
    ensures
        forall|key: Seq<char>| #[trigger]
            stored(objects, bytes).dom().contains(key) ==> content_key(
                stored(objects, bytes)[key],
            ) == key,
{
}

/// After the regions were put, each is found under its key.
pub proof fn lemma_regions_found(
    objects: Map<Seq<char>, Seq<u8>>,
    regions: Seq<Seq<u8>>,
    i: int,
)
    requires
        collision_free(objects, regions),
        0 <= i < regions.len(),
    ensures
        stored_all(objects, regions).dom().contains(content_key(regions[i])),
        stored_all(objects, regions)[content_key(regions[i])] == regions[i],
    decreases regions.len(),
{
    let before = regions.drop_last();
    let held = stored_all(objects, before);
    let key = content_key(regions[i]);
    assert(forall|k: int| 0 <= k < before.len() ==> #[trigger] before[k] == regions[k]);
    assert(collision_free(objects, before));
    if i < before.len() {
        lemma_regions_found(objects, before, i);
        assert(before[i] == regions[i]);
    } else {
        assert(regions.last() == regions[i]);
        if held.dom().contains(key) {
            lemma_stored_origin(objects, before, key);
            if objects.dom().contains(key) {
                law_store_only_grows(objects, before, key);
            } else {
                let k = choose|k: int| 0 <= k < before.len() && content_key(before[k]) == key;
                lemma_regions_found(objects, before, k);
                assert(before[k] == regions[k]);
            }
        }
    }
}

/// A key of the store was there before or belongs to one of the regions.
pub proof fn lemma_stored_origin(
    objects: Map<Seq<char>, Seq<u8>>,
    regions: Seq<Seq<u8>>,
    key: Seq<char>,
)
    requires
        stored_all(objects, regions).dom().contains(key),
    ensures
        objects.dom().contains(key) || exists|k: int|
            0 <= k < regions.len() && content_key(#[trigger] regions[k]) == key,
    decreases regions.len(),
{
    if regions.len() > 0 {
        let before = regions.drop_last();
        if stored_all(objects, before).dom().contains(key) {
            lemma_stored_origin(objects, before, key);
            if !objects.dom().contains(key) {
                let k = choose|k: int| 0 <= k < before.len() && content_key(#[trigger] before[k]) == key;
                assert(regions[k] == before[k]);
            }
        } else {
            assert(content_key(regions[regions.len() - 1]) == key);
        }
    }
}

/// The round trip: a document of pieces, with its regions put into the store,
/// rebuilds exactly the input, whatever else was put there since.
pub proof fn law_round_trip(
    pieces: Seq<Piece>,
    objects: Map<Seq<char>, Seq<u8>>,
    later: Seq<Seq<u8>>,
)
    requires
        collision_free(objects, regions(pieces)),
    ensures
        rebuilt(tiled(pieces), stored_all(stored_all(objects, regions(pieces)), later)) == Ok::<
            Seq<u8>,
            Fault,
        >(whole(pieces)),
{
    let held = stored_all(objects, regions(pieces));
    let now = stored_all(held, later);
    assert forall|i: int| 0 <= i < regions(pieces).len() implies now.dom().contains(
        content_key(#[trigger] regions(pieces)[i]),
    ) && now[content_key(regions(pieces)[i])] == regions(pieces)[i] by {
        lemma_regions_found(objects, regions(pieces), i);
        law_store_only_grows(held, later, content_key(regions(pieces)[i]));
    }
    lemma_rebuilt(pieces, now);
}

/// A document rebuilds its input from any store that has its regions.
proof fn lemma_rebuilt(pieces: Seq<Piece>, objects: Map<Seq<char>, Seq<u8>>)
    requires
        forall|i: int|
            0 <= i < regions(pieces).len() ==> objects.dom().contains(
                content_key(#[trigger] regions(pieces)[i]),
            ) && objects[content_key(regions(pieces)[i])] == regions(pieces)[i],
    ensures
        rebuilt(tiled(pieces), objects) == Ok::<Seq<u8>, Fault>(whole(pieces)),
    decreases pieces.len(),
{
    if pieces.len() > 0 {
        let before = pieces.drop_last();
        assert(tiled(pieces).drop_last() =~= tiled(before));
        assert forall|i: int| 0 <= i < regions(before).len() implies objects.dom().contains(
            content_key(#[trigger] regions(before)[i]),
        ) && objects[content_key(regions(before)[i])] == regions(before)[i] by {
            assert(regions(before)[i] == regions(pieces)[i]);
        }
        lemma_rebuilt(before, objects);
        match pieces.last() {
            Piece::Kept(_) => {},
            Piece::Offloaded { original, .. } => {
                assert(regions(pieces)[regions(pieces).len() - 1] == original);
            },
        }
    }
}

/// A document that rebuilds at all rebuilds, for each region, bytes of the
/// recorded length and hash: what a store gives back in place of a region is
/// the region itself or a collision of SHA-256.
pub proof fn law_rebuilt_regions_are_genuine(
    pieces: Seq<Piece>,
    objects: Map<Seq<char>, Seq<u8>>,
    i: int,
)
    requires
        rebuilt(tiled(pieces), objects) is Ok,
        0 <= i < pieces.len(),
    ensures
        resolved(piece_segment(pieces[i]), objects).len() == piece_bytes(pieces[i]).len(),
        pieces[i] is Kept ==> resolved(piece_segment(pieces[i]), objects) == piece_bytes(pieces[i]),
        pieces[i] is Offloaded ==> content_key(resolved(piece_segment(pieces[i]), objects))
            == content_key(piece_bytes(pieces[i])),
    decreases pieces.len(),
{
    assert(tiled(pieces).drop_last() =~= tiled(pieces.drop_last()));
    assert(tiled(pieces).last() == piece_segment(pieces.last()));
    if i < pieces.len() - 1 {
        law_rebuilt_regions_are_genuine(pieces.drop_last(), objects, i);
    } else {
        assert(fault(tiled(pieces).last(), objects) is None);
    }
}

/// The pieces' segments, regions and bytes, one piece after the other: a kept
/// piece is shown as it is and stores nothing, an offloaded one is a reference to
/// its whole bytes, which are the region that is stored.
pub proof fn law_pieces(pieces: Seq<Piece>, piece: Piece)
    ensures
        tiled(Seq::empty()) == Seq::<SegmentView>::empty(),
        regions(Seq::empty()) == Seq::<Seq<u8>>::empty(),
        whole(Seq::empty()) == Seq::<u8>::empty(),
        piece is Kept ==> tiled(pieces.push(piece)) == tiled(pieces).push(
            SegmentView::Verbatim(piece->Kept_0),
        ) && regions(pieces.push(piece)) == regions(pieces) && whole(pieces.push(piece)) == whole(
            pieces,
        ) + piece->Kept_0,
        piece is Offloaded ==> tiled(pieces.push(piece)) == tiled(pieces).push(
            SegmentView::Ref {
                key: content_key(piece->original),
                summary: piece->summary,
                original_len: piece->original.len(),
            },
        ) && regions(pieces.push(piece)) == regions(pieces).push(piece->original) && whole(
            pieces.push(piece),
        ) == whole(pieces) + piece->original,
{
    assert(pieces.push(piece).drop_last() =~= pieces);
    assert(tiled(pieces.push(piece)) =~= tiled(pieces).push(piece_segment(piece)));
    assert(tiled(Seq::<Piece>::empty()) =~= Seq::<SegmentView>::empty());
}

/// A store has a key after some regions were put exactly if it had it before or
/// one of the regions has it; what it had it keeps, and a new key has the first
/// region with it.
pub proof fn law_stored_all(
    objects: Map<Seq<char>, Seq<u8>>,
    regions: Seq<Seq<u8>>,
    key: Seq<char>,
    i: int,
)
    ensures
        stored_all(objects, regions).dom().contains(key) <==> objects.dom().contains(key) || exists|
            k: int,
        |
            0 <= k < regions.len() && content_key(#[trigger] regions[k]) == key,
        objects.dom().contains(key) ==> stored_all(objects, regions)[key] == objects[key],
        !objects.dom().contains(key) && 0 <= i < regions.len() && content_key(regions[i]) == key
            && (forall|k: int| 0 <= k < i ==> content_key(#[trigger] regions[k]) != key)
            ==> stored_all(objects, regions)[key] == regions[i],
    decreases regions.len(),
{
    if regions.len() > 0 {
        let before = regions.drop_last();
        let n = regions.len() - 1;
        assert(forall|k: int| 0 <= k < before.len() ==> #[trigger] before[k] == regions[k]);
        law_stored_all(objects, before, key, i);
        if content_key(regions[n]) == key {
            assert(stored_all(objects, regions).dom().contains(key));
        }
        if stored_all(objects, before).dom().contains(key) && !objects.dom().contains(key) {
            let k = choose|k: int| 0 <= k < before.len() && content_key(#[trigger] before[k]) == key;
            assert(content_key(regions[k]) == key);
        }
        if exists|k: int| 0 <= k < regions.len() && content_key(#[trigger] regions[k]) == key {
            let k = choose|k: int|
                0 <= k < regions.len() && content_key(#[trigger] regions[k]) == key;
            if k < n {
                assert(content_key(before[k]) == key);
            }
        }
        if !objects.dom().contains(key) && 0 <= i < regions.len() && content_key(regions[i]) == key
            && (forall|k: int| 0 <= k < i ==> content_key(#[trigger] regions[k]) != key) {
            if i < n {
                assert(content_key(before[i]) == key);
                assert(stored_all(objects, before).dom().contains(key));
                assert forall|k: int| 0 <= k < i implies content_key(#[trigger] before[k])
                    != key by {
                    assert(content_key(regions[k]) != key);
                }
            } else {
                assert(!stored_all(objects, before).dom().contains(key)) by {
                    if stored_all(objects, before).dom().contains(key) {
                        let k = choose|k: int|
                            0 <= k < before.len() && content_key(#[trigger] before[k]) == key;
                        assert(content_key(regions[k]) != key);
                    }
                }
            }
        }
    }
}

} // verus!
