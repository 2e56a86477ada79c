//! Offloading a whole input.
use crate::cas::Cas;
use crate::detect::{
    container_of, detect_with_value, law_content_type, opens_container, other_type, ContentType,
};
use crate::doc::{rebuilt, rendered, segment_views, CompressedDoc, Fault, Segment, SegmentView};
use crate::emit::lemma_push_segment;
use crate::hash::{content_key, law_keys_are_64_hex_digits};
use crate::json::{field_trees, json_of_bytes, trees, Json, Tree};
use crate::text::{chars_of, decimal, decimal_of, join, join_of, lines, lines_of, texts};
use crate::tiling::{
    collision_free, law_round_trip, law_stored_all, regions, stored_all, tiled, whole, Piece,
};
use crate::utf8::{lossy_text, utf8_lossy};
use vstd::prelude::*;

verus! {

/// Smaller inputs are not worth offloading.
pub const MIN_COMPRESS_BYTES: usize = 256;

// ---------------------------------------------------------------------------
// Summaries
// ---------------------------------------------------------------------------

/// The names of the fields.
pub open spec fn field_names(fields: Seq<(Seq<char>, Tree)>) -> Seq<Seq<char>> {
    Seq::new(fields.len(), |i: int| fields[i].0)
}

/// The field names of the first item, if that is an object.
pub open spec fn first_keys(items: Seq<Tree>) -> Seq<char> {
    if items.len() > 0 && items[0] is Object {
        join(field_names(items[0]->Object_0), ","@)
    } else {
        Seq::empty()
    }
}

/// The summary of a JSON document of `len` bytes.
pub open spec fn json_summary(doc: Option<Tree>, len: nat) -> Seq<char> {
    match doc {
        Some(Tree::Array(items)) => {
            let head = "json array, "@ + decimal(items.len()) + " items"@;
            if first_keys(items).len() == 0 {
                head
            } else {
                head + ", keys: "@ + first_keys(items)
            }
        },
        Some(Tree::Object(fields)) => "json object, keys: "@ + join(field_names(fields), ","@),
        _ => "json, "@ + decimal(len) + " bytes"@,
    }
}

/// The type of an input, by the parsed document.
pub open spec fn parsed_type(input: Seq<u8>) -> ContentType {
    if container_of(input) is Some {
        ContentType::Json
    } else {
        other_type(input)
    }
}

/// The summary of an input.
pub open spec fn summary_of(input: Seq<u8>) -> Seq<char> {
    match parsed_type(input) {
        ContentType::Json => json_summary(container_of(input), input.len()),
        ContentType::Log => "log, "@ + decimal(lines(utf8_lossy(input)).len()) + " lines"@,
        ContentType::Text => "text, "@ + decimal(input.len()) + " bytes"@,
    }
}

fn keys_of(fields: &Vec<(String, Json)>) -> (out: String)
    ensures
        out@ == join(field_names(field_trees(fields@)), ","@),
{
    let mut names: Vec<String> = Vec::new();
    let mut i: usize = 0;
    while i < fields.len()
        invariant
            i <= fields@.len(),
            names@.len() == i,
            forall|k: int| 0 <= k < i ==> (#[trigger] names@[k])@ == fields@[k].0@,
        decreases fields@.len() - i,
    {
        names.push(fields[i].0.clone());
        i += 1;
    }
    assert(texts(names@) =~= field_names(field_trees(fields@)));
    join_of(names.as_slice(), ",")
}

/// The summary of a parsed document.
pub fn summarize_json(value: &Json, byte_len: usize) -> (out: String)
    ensures
        out@ == json_summary(Some(value@), byte_len as nat),
{
    match value {
        Json::Array(items) => {
            let keys = if items.len() > 0 {
                match &items[0] {
                    Json::Object(fields) => {
                        assert(trees(items@)[0] == items@[0]@);
                        keys_of(fields)
                    },
                    _ => {
                        assert(trees(items@)[0] == items@[0]@);
                        String::new()
                    },
                }
            } else {
                String::new()
            };
            let head = "json array, ".to_owned().concat(decimal_of(items.len()).as_str()).concat(
                " items",
            );
            if keys.as_str().unicode_len() == 0 {
                head
            } else {
                head.concat(", keys: ").concat(keys.as_str())
            }
        },
        Json::Object(fields) => "json object, keys: ".to_owned().concat(keys_of(fields).as_str()),
        _ => "json, ".to_owned().concat(decimal_of(byte_len).as_str()).concat(" bytes"),
    }
}

fn summarize_log(input: &[u8]) -> (out: String)
    ensures
        out@ == "log, "@ + decimal(lines(utf8_lossy(input@)).len()) + " lines"@,
{
    let text = lossy_text(input);
    let chars = chars_of(text.as_str());
    let n = lines_of(&chars).len();
    "log, ".to_owned().concat(decimal_of(n).as_str()).concat(" lines")
}

fn summarize(content_type: ContentType, input: &[u8], parsed: &Option<Json>) -> (out: String)
    requires
        match parsed {
            Some(j) => container_of(input@) == Some(j@) && content_type == ContentType::Json,
            None => container_of(input@) is None && content_type == other_type(input@),
        },
    ensures
        out@ == summary_of(input@),
{
    match parsed {
        Some(value) => summarize_json(value, input.len()),
        None => match content_type {
            ContentType::Json => "json, ".to_owned().concat(
                decimal_of(input.len()).as_str(),
            ).concat(" bytes"),
            ContentType::Log => summarize_log(input),
            ContentType::Text => "text, ".to_owned().concat(
                decimal_of(input.len()).as_str(),
            ).concat(" bytes"),
        },
    }
}

// ---------------------------------------------------------------------------
// Offloading
// ---------------------------------------------------------------------------

/// The pieces of an input that is offloaded as a whole if it is JSON or a log
/// and has at least `min_bytes` bytes.
pub open spec fn offload_pieces(input: Seq<u8>, min_bytes: nat) -> Seq<Piece> {
    if parsed_type(input) != ContentType::Text && input.len() >= min_bytes {
        seq![Piece::Offloaded { original: input, summary: summary_of(input) }]
    } else {
        seq![Piece::Kept(input)]
    }
}

/// The pieces of an input that is offloaded as a whole, whatever it is, if it
/// has at least `min_bytes` bytes.
pub open spec fn offload_any_pieces(input: Seq<u8>, min_bytes: nat) -> Seq<Piece> {
    if input.len() >= min_bytes {
        seq![Piece::Offloaded { original: input, summary: summary_of(input) }]
    } else {
        seq![Piece::Kept(input)]
    }
}

/// One piece makes up its own bytes.
pub proof fn lemma_one_piece(piece: Piece)
    ensures
        whole(seq![piece]) == (match piece {
            Piece::Kept(bytes) => bytes,
            Piece::Offloaded { original, .. } => original,
        }),
        regions(seq![piece]) == (match piece {
            Piece::Kept(_) => Seq::<Seq<u8>>::empty(),
            Piece::Offloaded { original, .. } => seq![original],
        }),
{
    reveal_with_fuel(whole, 2);
    reveal_with_fuel(regions, 2);
    assert(seq![piece].drop_last() =~= Seq::<Piece>::empty());
    match piece {
        Piece::Kept(bytes) => {
            assert(whole(seq![piece]) =~= bytes);
        },
        Piece::Offloaded { original, .. } => {
            assert(whole(seq![piece]) =~= original);
            assert(regions(seq![piece]) =~= seq![original]);
        },
    }
}

/// The document of one kept piece.
pub fn verbatim(input: &[u8]) -> (doc: CompressedDoc)
    ensures
        doc@ == tiled(seq![Piece::Kept(input@)]),
{
    let mut segments: Vec<Segment> = Vec::new();
    let copy = vstd::slice::slice_to_vec(input);
    proof {
        assert(segment_views(segments@) =~= tiled(Seq::<Piece>::empty()));
        lemma_push_segment(
            segments@,
            Segment::Verbatim(copy),
            Seq::empty(),
            Piece::Kept(input@),
        );
        assert(Seq::<Piece>::empty().push(Piece::Kept(input@)) =~= seq![Piece::Kept(input@)]);
    }
    segments.push(Segment::Verbatim(copy));
    CompressedDoc { segments }
}

/// The document of one offloaded piece.
fn offloaded<C: Cas>(input: &[u8], cas: &mut C, summary: String) -> (doc: CompressedDoc)
    ensures
        doc@ == tiled(seq![Piece::Offloaded { original: input@, summary: summary@ }]),
        final(cas).objects() == stored_all(
            old(cas).objects(),
            regions(seq![Piece::Offloaded { original: input@, summary: summary@ }]),
        ),
{
    let hash = cas.put(input);
    let mut segments: Vec<Segment> = Vec::new();
    let segment = Segment::Ref { hash, summary, original_len: input.len() };
    proof {
        let piece = Piece::Offloaded { original: input@, summary: summary@ };
        assert(segment_views(segments@) =~= tiled(Seq::<Piece>::empty()));
        lemma_push_segment(segments@, segment, Seq::empty(), piece);
        assert(Seq::<Piece>::empty().push(piece) =~= seq![piece]);
        lemma_one_piece(piece);
        reveal_with_fuel(stored_all, 2);
        assert(seq![input@].drop_last() =~= Seq::<Seq<u8>>::empty());
    }
    segments.push(segment);
    CompressedDoc { segments }
}

/// Offloads the whole input if it has at least `min_bytes` bytes.
pub fn offload_whole_any_min<C: Cas>(input: &[u8], cas: &mut C, min_bytes: usize) -> (doc:
    CompressedDoc)
    ensures
        doc@ == tiled(offload_any_pieces(input@, min_bytes as nat)),
        final(cas).objects() == stored_all(
            old(cas).objects(),
            regions(offload_any_pieces(input@, min_bytes as nat)),
        ),
{
    if input.len() < min_bytes {
        proof {
            lemma_one_piece(Piece::Kept(input@));
        }
        return verbatim(input);
    }
    let (content_type, parsed) = detect_with_value(input);
    let summary = summarize(content_type, input, &parsed);
    offloaded(input, cas, summary)
}

/// Offloads the whole input if it is JSON or a log and has at least
/// `min_bytes` bytes.
pub fn offload_whole_min<C: Cas>(input: &[u8], cas: &mut C, min_bytes: usize) -> (doc:
    CompressedDoc)
    ensures
        doc@ == tiled(offload_pieces(input@, min_bytes as nat)),
        final(cas).objects() == stored_all(
            old(cas).objects(),
            regions(offload_pieces(input@, min_bytes as nat)),
        ),
{
    let (content_type, parsed) = detect_with_value(input);
    let worth_compressing = content_type != ContentType::Text && input.len() >= min_bytes;
    if !worth_compressing {
        proof {
            lemma_one_piece(Piece::Kept(input@));
        }
        return verbatim(input);
    }
    let summary = summarize(content_type, input, &parsed);
    offloaded(input, cas, summary)
}

/// Offloads the whole input if it is JSON or a log and worth it.
pub fn offload_whole<C: Cas>(input: &[u8], cas: &mut C) -> (doc: CompressedDoc)
    ensures
        doc@ == tiled(offload_pieces(input@, MIN_COMPRESS_BYTES as nat)),
        final(cas).objects() == stored_all(
            old(cas).objects(),
            regions(offload_pieces(input@, MIN_COMPRESS_BYTES as nat)),
        ),
{
    offload_whole_min(input, cas, MIN_COMPRESS_BYTES)
}

/// Compresses `input`, with what is offloaded put into `cas`.
pub fn compress<C: Cas>(input: &[u8], cas: &mut C) -> (doc: CompressedDoc)
    ensures
        doc@ == tiled(offload_pieces(input@, MIN_COMPRESS_BYTES as nat)),
        final(cas).objects() == stored_all(
            old(cas).objects(),
            regions(offload_pieces(input@, MIN_COMPRESS_BYTES as nat)),
        ),
{
    offload_whole(input, cas)
}

/// Reversibility: a compressed input is rebuilt byte for byte from the store
/// that it was compressed into, whatever was put there since.
pub proof fn law_compress_is_reversible(
    input: Seq<u8>,
    min_bytes: nat,
    objects: Map<Seq<char>, Seq<u8>>,
    later: Seq<Seq<u8>>,
)
    requires
        collision_free(objects, regions(offload_pieces(input, min_bytes))),
    ensures
        rebuilt(
            tiled(offload_pieces(input, min_bytes)),
            stored_all(stored_all(objects, regions(offload_pieces(input, min_bytes))), later),
        ) == Ok::<Seq<u8>, Fault>(input),
{
    lemma_one_piece(Piece::Kept(input));
    lemma_one_piece(Piece::Offloaded { original: input, summary: summary_of(input) });
    law_round_trip(offload_pieces(input, min_bytes), objects, later);
}

// ---------------------------------------------------------------------------
// What offloading does
// ---------------------------------------------------------------------------

/// The type of an input by its parsed document: JSON exactly for a container that
/// is read, else a log or text as it is told without JSON.
pub proof fn law_parsed_type(input: Seq<u8>)
    ensures
        parsed_type(input) == ContentType::Json <==> opens_container(input) && json_of_bytes(
            input,
        ) is Some && (json_of_bytes(input)->0 is Array || json_of_bytes(input)->0 is Object),
        parsed_type(input) == ContentType::Log <==> container_of(input) is None && other_type(input)
            == ContentType::Log,
{
    law_content_type(input);
}

/// An input that is a JSON container or a log and has at least `min_bytes` bytes,
/// however many, becomes one reference to all of it: its bytes are what is stored,
/// and can be read under their hash; the model is shown the sentinel with the
/// summary and nothing else, 21 characters more than the summary.
pub proof fn law_large_input_is_offloaded(
    input: Seq<u8>,
    min_bytes: nat,
    objects: Map<Seq<char>, Seq<u8>>,
)
    requires
        input.len() >= min_bytes,
        (opens_container(input) && json_of_bytes(input) is Some && (json_of_bytes(input)->0 is Array
            || json_of_bytes(input)->0 is Object)) || (container_of(input) is None && other_type(
            input,
        ) == ContentType::Log),
    ensures
        tiled(offload_pieces(input, min_bytes)) == seq![
            SegmentView::Ref {
                key: content_key(input),
                summary: summary_of(input),
                original_len: input.len(),
            },
        ],
        regions(offload_pieces(input, min_bytes)) == seq![input],
        stored_all(objects, regions(offload_pieces(input, min_bytes))).dom().contains(
            content_key(input),
        ),
        !objects.dom().contains(content_key(input)) ==> stored_all(
            objects,
            regions(offload_pieces(input, min_bytes)),
        )[content_key(input)] == input,
        rendered(tiled(offload_pieces(input, min_bytes))) == "<<cof:"@ + content_key(input).take(12)
            + " "@ + summary_of(input) + ">>"@,
        rendered(tiled(offload_pieces(input, min_bytes))).len() == 21 + summary_of(input).len(),
{
    law_parsed_type(input);
    lemma_offloaded_alone(input, objects);
    law_content_type(input);
    assert(offload_pieces(input, min_bytes) == seq![
        Piece::Offloaded { original: input, summary: summary_of(input) },
    ]);
}

proof fn lemma_offloaded_alone(input: Seq<u8>, objects: Map<Seq<char>, Seq<u8>>)
    ensures
        ({
            let one = seq![Piece::Offloaded { original: input, summary: summary_of(input) }];
            &&& tiled(one) == seq![
                SegmentView::Ref {
                    key: content_key(input),
                    summary: summary_of(input),
                    original_len: input.len(),
                },
            ]
            &&& regions(one) == seq![input]
            &&& stored_all(objects, regions(one)).dom().contains(content_key(input))
            &&& !objects.dom().contains(content_key(input)) ==> stored_all(
                objects,
                regions(one),
            )[content_key(input)] == input
            &&& rendered(tiled(one)) == "<<cof:"@ + content_key(input).take(12) + " "@ + summary_of(
                input,
            ) + ">>"@
            &&& rendered(tiled(one)).len() == 21 + summary_of(input).len()
        }),
{
    let piece = Piece::Offloaded { original: input, summary: summary_of(input) };
    let one = seq![piece];
    lemma_one_piece(piece);
    assert(tiled(one) =~= seq![
        SegmentView::Ref {
            key: content_key(input),
            summary: summary_of(input),
            original_len: input.len(),
        },
    ]);
    assert(seq![input][0] == input);
    law_stored_all(objects, seq![input], content_key(input), 0);
    reveal_with_fuel(rendered, 2);
    assert(tiled(one).drop_last() =~= Seq::empty());
    assert(rendered(tiled(one)) =~= "<<cof:"@ + content_key(input).take(12) + " "@ + summary_of(
        input,
    ) + ">>"@);
    law_keys_are_64_hex_digits(input);
    reveal_strlit("<<cof:");
    reveal_strlit(" ");
    reveal_strlit(">>");
}

/// An input below `min_bytes`, or that is text, is shown as it is, and nothing is
/// stored. Where any type may be offloaded only the size decides.
pub proof fn law_small_input_is_kept(input: Seq<u8>, min_bytes: nat)
    ensures
        input.len() < min_bytes || parsed_type(input) == ContentType::Text ==> tiled(
            offload_pieces(input, min_bytes),
        ) == seq![SegmentView::Verbatim(input)] && regions(offload_pieces(input, min_bytes)).len()
            == 0,
        input.len() < min_bytes ==> tiled(offload_any_pieces(input, min_bytes)) == seq![
            SegmentView::Verbatim(input),
        ] && regions(offload_any_pieces(input, min_bytes)).len() == 0,
        input.len() >= min_bytes ==> tiled(offload_any_pieces(input, min_bytes)) == seq![
            SegmentView::Ref {
                key: content_key(input),
                summary: summary_of(input),
                original_len: input.len(),
            },
        ] && regions(offload_any_pieces(input, min_bytes)) == seq![input],
        MIN_COMPRESS_BYTES == 256,
{
    lemma_one_piece(Piece::Kept(input));
    lemma_offloaded_alone(input, Map::empty());
    assert(tiled(seq![Piece::Kept(input)]) =~= seq![SegmentView::Verbatim(input)]);
}

/// The summary says what an input is and how much of it there is: the number of
/// an array's items with the field names of the first, the field names of an
/// object, the number of a log's lines, or the number of bytes.
pub proof fn law_summary(input: Seq<u8>)
    ensures
        container_of(input) is Some && container_of(input)->0 is Array ==> {
            let items = container_of(input)->0->Array_0;
            let head = "json array, "@ + decimal(items.len()) + " items"@;
            let keys = if items.len() > 0 && items[0] is Object {
                join(items[0]->Object_0.map_values(|f: (Seq<char>, Tree)| f.0), ","@)
            } else {
                Seq::empty()
            };
            summary_of(input) == (if keys.len() == 0 {
                head
            } else {
                head + ", keys: "@ + keys
            })
        },
        container_of(input) is Some && container_of(input)->0 is Object ==> summary_of(input)
            == "json object, keys: "@ + join(
            container_of(input)->0->Object_0.map_values(|f: (Seq<char>, Tree)| f.0),
            ","@,
        ),
        container_of(input) is None && other_type(input) == ContentType::Log ==> summary_of(input)
            == "log, "@ + decimal(lines(utf8_lossy(input)).len()) + " lines"@,
        container_of(input) is None && other_type(input) == ContentType::Text ==> summary_of(input)
            == "text, "@ + decimal(input.len()) + " bytes"@,
{
    match container_of(input) {
        Some(Tree::Array(items)) => {
            if items.len() > 0 && items[0] is Object {
                assert(field_names(items[0]->Object_0) =~= items[0]->Object_0.map_values(
                    |f: (Seq<char>, Tree)| f.0,
                ));
            }
        },
        Some(Tree::Object(fields)) => {
            assert(field_names(fields) =~= fields.map_values(|f: (Seq<char>, Tree)| f.0));
        },
        _ => {},
    }
}

} // verus!
