//! The compressed document: a sequence of segments that is shown to the model
//! one way and rebuilt byte for byte from the store.
use crate::cas::Cas;
use crate::hash::{all_hex, content_key, is_hex_char, ContentHash};
use crate::text::decimal;
use crate::text::decimal_of;
use crate::utf8::{lemma_encode_concat, lossy_text, utf8_lossy};
use vstd::prelude::*;
use vstd::utf8::{encode_utf8, is_ascii_chars, valid_utf8};

verus! {

/// One piece of a compressed document.
#[derive(Debug, PartialEq)]
pub enum Segment {
    /// Bytes that are shown and rebuilt as they are.
    Verbatim(Vec<u8>),
    /// A region whose bytes are kept in the store.
    Ref {
        /// The store's key of the region's exact bytes.
        hash: ContentHash,
        /// What the model sees in place of the bytes.
        summary: String,
        /// The length of the region.
        original_len: usize,
    },
}

/// A segment as plain values.
pub enum SegmentView {
    Verbatim(Seq<u8>),
    Ref { key: Seq<char>, summary: Seq<char>, original_len: nat },
}

impl View for Segment {
    type V = SegmentView;

    open spec fn view(&self) -> SegmentView {
        match *self {
            Segment::Verbatim(bytes) => SegmentView::Verbatim(bytes@),
            Segment::Ref { hash, summary, original_len } => SegmentView::Ref {
                key: hash@,
                summary: summary@,
                original_len: original_len as nat,
            },
        }
    }
}

impl Clone for Segment {
    fn clone(&self) -> (copy: Self)
        ensures
            copy@ == self@,
    {
        match self {
            Segment::Verbatim(bytes) => Segment::Verbatim(
                vstd::slice::slice_to_vec(bytes.as_slice()),
            ),
            Segment::Ref { hash, summary, original_len } => Segment::Ref {
                hash: hash.clone(),
                summary: summary.clone(),
                original_len: *original_len,
            },
        }
    }
}

/// The segments of a list as plain values.
pub open spec fn segment_views(segments: Seq<Segment>) -> Seq<SegmentView> {
    Seq::new(segments.len(), |i: int| segments[i]@)
}

/// A compressed view of some input.
#[derive(Debug, PartialEq)]
pub struct CompressedDoc {
    /// The segments, in order.
    pub segments: Vec<Segment>,
}

impl View for CompressedDoc {
    type V = Seq<SegmentView>;

    open spec fn view(&self) -> Seq<SegmentView> {
        segment_views(self.segments@)
    }
}

impl Clone for CompressedDoc {
    fn clone(&self) -> (copy: Self)
        ensures
            copy@ == self@,
    {
        let mut segments: Vec<Segment> = Vec::new();
        let mut i: usize = 0;
        while i < self.segments.len()
            invariant
                i <= self.segments@.len(),
                segment_views(segments@) =~= self@.take(i as int),
            decreases self.segments@.len() - i,
        {
            let ghost before = segments@;
            segments.push(self.segments[i].clone());
            assert(segment_views(segments@) =~= segment_views(before).push(self@[i as int]));
            i += 1;
        }
        assert(segment_views(segments@) =~= self@);
        CompressedDoc { segments }
    }
}

/// Why a document could not be rebuilt.
#[derive(Debug, PartialEq, Eq)]
pub enum ReconstructError {
    /// The store has nothing under this key.
    MissingOriginal(String),
    /// The store's bytes have another length than the segment recorded.
    LengthMismatch {
        /// The length of what the store returned.
        got: usize,
        /// The length that the segment recorded.
        expected: usize,
    },
    /// The store's bytes do not hash to this key.
    HashMismatch(String),
}

/// A reconstruction error as plain values.
pub enum Fault {
    Missing(Seq<char>),
    Length { got: nat, expected: nat },
    Mismatch(Seq<char>),
}

impl View for ReconstructError {
    type V = Fault;

    open spec fn view(&self) -> Fault {
        match *self {
            ReconstructError::MissingOriginal(key) => Fault::Missing(key@),
            ReconstructError::LengthMismatch { got, expected } => Fault::Length {
                got: got as nat,
                expected: expected as nat,
            },
            ReconstructError::HashMismatch(key) => Fault::Mismatch(key@),
        }
    }
}

impl ReconstructError {
    /// The error as one line of text.
    pub open spec fn text(self) -> Seq<char> {
        match self {
            ReconstructError::MissingOriginal(key) =>
                "CAS is missing the original bytes for hash "@ + key@,
            ReconstructError::LengthMismatch { got, expected } => "recovered "@ + decimal(
                got as nat,
            ) + " bytes but the segment recorded "@ + decimal(expected as nat),
            ReconstructError::HashMismatch(key) =>
                "CAS returned bytes whose hash does not match key "@ + key@
                    + " (corrupt or dishonest backend)"@,
        }
    }

    /// The error as one line of text.
    pub fn message(&self) -> (line: String)
        ensures
            line@ == self.text(),
    {
        match self {
            ReconstructError::MissingOriginal(key) => {
                "CAS is missing the original bytes for hash ".to_owned().concat(key.as_str())
            },
            ReconstructError::LengthMismatch { got, expected } => {
                "recovered ".to_owned().concat(decimal_of(*got).as_str()).concat(
                    " bytes but the segment recorded ",
                ).concat(decimal_of(*expected).as_str())
            },
            ReconstructError::HashMismatch(key) => {
                "CAS returned bytes whose hash does not match key ".to_owned().concat(
                    key.as_str(),
                ).concat(" (corrupt or dishonest backend)")
            },
        }
    }
}

/// The sentinel that stands for an offloaded region: the first 12 digits of
/// its key and the summary.
pub open spec fn sentinel_text(key: Seq<char>, summary: Seq<char>) -> Seq<char> {
    "<<cof:"@ + key.take(12) + " "@ + summary + ">>"@
}

fn sentinel(hash: &ContentHash, summary: &str) -> (out: String)
    ensures
        out@ == sentinel_text(hash@, summary@),
{
    "<<cof:".to_owned().concat(hash.short()).concat(" ").concat(summary).concat(">>")
}

/// What the model sees of one segment.
pub open spec fn shown(segment: SegmentView) -> Seq<char> {
    match segment {
        SegmentView::Verbatim(bytes) => utf8_lossy(bytes),
        SegmentView::Ref { key, summary, .. } => sentinel_text(key, summary),
    }
}

/// What the model sees of a document.
pub open spec fn rendered(segments: Seq<SegmentView>) -> Seq<char>
    decreases segments.len(),
{
    if segments.len() == 0 {
        Seq::empty()
    } else {
        rendered(segments.drop_last()) + shown(segments.last())
    }
}

/// The size of one segment in the rendering: a verbatim segment by its own
/// bytes, a reference by its sentinel.
pub open spec fn shown_size(segment: SegmentView) -> nat {
    match segment {
        SegmentView::Verbatim(bytes) => bytes.len(),
        SegmentView::Ref { key, summary, .. } => encode_utf8(sentinel_text(key, summary)).len(),
    }
}

/// The size of a document in the rendering.
pub open spec fn rendered_size(segments: Seq<SegmentView>) -> nat
    decreases segments.len(),
{
    if segments.len() == 0 {
        0
    } else {
        rendered_size(segments.drop_last()) + shown_size(segments.last())
    }
}

/// What is wrong with the store's answer for one segment, if anything: first
/// its absence, then its length, then its hash.
pub open spec fn fault(segment: SegmentView, objects: Map<Seq<char>, Seq<u8>>) -> Option<Fault> {
    match segment {
        SegmentView::Verbatim(_) => None,
        SegmentView::Ref { key, original_len, .. } => {
            if !objects.dom().contains(key) {
                Some(Fault::Missing(key))
            } else if objects[key].len() != original_len {
                Some(Fault::Length { got: objects[key].len(), expected: original_len })
            } else if content_key(objects[key]) != key {
                Some(Fault::Mismatch(key))
            } else {
                None
            }
        },
    }
}

/// The bytes that one segment stands for.
pub open spec fn resolved(segment: SegmentView, objects: Map<Seq<char>, Seq<u8>>) -> Seq<u8> {
    match segment {
        SegmentView::Verbatim(bytes) => bytes,
        SegmentView::Ref { key, .. } => objects[key],
    }
}

/// What a document is rebuilt to from a store: the bytes of its segments in
/// order, or what is wrong with the first segment that has something wrong.
pub open spec fn rebuilt(
    segments: Seq<SegmentView>,
    objects: Map<Seq<char>, Seq<u8>>,
) -> Result<Seq<u8>, Fault>
    decreases segments.len(),
{
    if segments.len() == 0 {
        Ok(Seq::empty())
    } else {
        match rebuilt(segments.drop_last(), objects) {
            Err(f) => Err(f),
            Ok(bytes) => match fault(segments.last(), objects) {
                Some(f) => Err(f),
                None => Ok(bytes + resolved(segments.last(), objects)),
            },
        }
    }
}

/// Once a segment has something wrong, so has every longer document.
proof fn lemma_fault_stays(
    segments: Seq<SegmentView>,
    objects: Map<Seq<char>, Seq<u8>>,
    n: int,
)
    requires
        0 <= n <= segments.len(),
        rebuilt(segments.take(n), objects) is Err,
    ensures
        rebuilt(segments, objects) == rebuilt(segments.take(n), objects),
    decreases segments.len(),
{
    if n < segments.len() {
        assert(segments.drop_last().take(n) =~= segments.take(n));
        lemma_fault_stays(segments.drop_last(), objects, n);
    } else {
        assert(segments.take(n) =~= segments);
    }
}

impl CompressedDoc {
    /// What the model sees: verbatim text with short sentinels in place of the
    /// offloaded regions. Bytes that are no UTF-8 are shown lossily, which never
    /// takes fewer bytes than there are.
    pub fn render_for_model(&self) -> (out: String)
        ensures
            out@ == rendered(self@),
            rendered_size(self@) <= encode_utf8(out@).len(),
    {
        let mut out = String::new();
        let mut i: usize = 0;
        while i < self.segments.len()
            invariant
                i <= self.segments@.len(),
                out@ == rendered(self@.take(i as int)),
                rendered_size(self@.take(i as int)) <= encode_utf8(out@).len(),
            decreases self.segments@.len() - i,
        {
            assert(self@.take(i as int + 1).drop_last() =~= self@.take(i as int));
            proof {
                lemma_encode_concat(out@, shown(self@[i as int]));
            }
            match &self.segments[i] {
                Segment::Verbatim(bytes) => {
                    out.append(lossy_text(bytes).as_str());
                },
                Segment::Ref { hash, summary, .. } => {
                    out.append(sentinel(hash, summary.as_str()).as_str());
                },
            }
            i += 1;
        }
        assert(self@.take(i as int) =~= self@);
        out
    }

    /// Rebuilds the exact input from `cas`. Every offloaded region is hashed
    /// again, so a store that lost or changed bytes gives an error.
    pub fn reconstruct<C: Cas>(&self, cas: &C) -> (out: Result<Vec<u8>, ReconstructError>)
        ensures
            match out {
                Ok(bytes) => rebuilt(self@, cas.objects()) == Ok::<Seq<u8>, Fault>(bytes@),
                Err(e) => rebuilt(self@, cas.objects()) == Err::<Seq<u8>, Fault>(e@),
            },
    {
        let mut out: Vec<u8> = Vec::new();
        let mut i: usize = 0;
        while i < self.segments.len()
            invariant
                i <= self.segments@.len(),
                rebuilt(self@.take(i as int), cas.objects()) == Ok::<Seq<u8>, Fault>(out@),
            decreases self.segments@.len() - i,
        {
            let ghost next = self@.take(i as int + 1);
            assert(next.drop_last() =~= self@.take(i as int));
            assert(next.last() == self.segments@[i as int]@);
            match &self.segments[i] {
                Segment::Verbatim(bytes) => {
                    let ghost before = out@;
                    out.extend_from_slice(bytes.as_slice());
                    assert(out@ =~= before + bytes@);
                },
                Segment::Ref { hash, original_len, .. } => {
                    match cas.get(hash) {
                        None => {
                            let e = ReconstructError::MissingOriginal(hash.as_str().to_owned());
                            proof {
                                lemma_fault_stays(self@, cas.objects(), i as int + 1);
                            }
                            return Err(e);
                        },
                        Some(original) => {
                            if original.len() != *original_len {
                                proof {
                                    lemma_fault_stays(self@, cas.objects(), i as int + 1);
                                }
                                return Err(
                                    ReconstructError::LengthMismatch {
                                        got: original.len(),
                                        expected: *original_len,
                                    },
                                );
                            }
                            if !ContentHash::of(original.as_slice()).same(hash) {
                                proof {
                                    lemma_fault_stays(self@, cas.objects(), i as int + 1);
                                }
                                return Err(
                                    ReconstructError::HashMismatch(hash.as_str().to_owned()),
                                );
                            }
                            let ghost before = out@;
                            out.extend_from_slice(original.as_slice());
                            assert(out@ =~= before + original@);
                        },
                    }
                },
            }
            i += 1;
        }
        assert(self@.take(i as int) =~= self@);
        Ok(out)
    }

    /// The size of the rendering in bytes, with verbatim segments by their own
    /// length and references by their sentinel.
    pub fn rendered_len(&self) -> (n: usize)
        requires
            rendered_size(self@) <= usize::MAX,
        ensures
            n == rendered_size(self@),
    {
        let mut n: usize = 0;
        let mut i: usize = 0;
        while i < self.segments.len()
            invariant
                i <= self.segments@.len(),
                rendered_size(self@) <= usize::MAX,
                n == rendered_size(self@.take(i as int)),
            decreases self.segments@.len() - i,
        {
            assert(self@.take(i as int + 1).drop_last() =~= self@.take(i as int));
            proof {
                lemma_rendered_size_grows(self@, i as int + 1);
            }
            match &self.segments[i] {
                Segment::Verbatim(bytes) => {
                    n += bytes.len();
                },
                Segment::Ref { hash, summary, .. } => {
                    n += sentinel(hash, summary.as_str()).as_str().len();
                },
            }
            i += 1;
        }
        assert(self@.take(i as int) =~= self@);
        n
    }
}

/// All verbatim bytes are UTF-8.
pub open spec fn all_utf8(segments: Seq<SegmentView>) -> bool {
    forall|i: int|
        0 <= i < segments.len() ==> match #[trigger] segments[i] {
            SegmentView::Verbatim(bytes) => valid_utf8(bytes),
            SegmentView::Ref { .. } => true,
        }
}

/// Where all verbatim bytes are UTF-8, the size of a document is that of its
/// rendering in bytes.
pub proof fn law_size_is_that_of_the_rendering(segments: Seq<SegmentView>)
    requires
        all_utf8(segments),
    ensures
        rendered_size(segments) == encode_utf8(rendered(segments)).len(),
    decreases segments.len(),
{
    if segments.len() > 0 {
        let before = segments.drop_last();
        assert(forall|i: int| 0 <= i < before.len() ==> #[trigger] before[i] == segments[i]);
        law_size_is_that_of_the_rendering(before);
        lemma_encode_concat(rendered(before), shown(segments.last()));
        assert(segments[segments.len() - 1] == segments.last());
        match segments.last() {
            SegmentView::Verbatim(bytes) => {
                vstd::utf8::decode_utf8_encode_utf8(bytes);
            },
            SegmentView::Ref { .. } => {},
        }
    }
}

/// A sentinel takes 21 bytes more than its summary.
pub proof fn law_sentinel_size(key: Seq<char>, summary: Seq<char>)
    requires
        key.len() >= 12,
        all_hex(key),
    ensures
        encode_utf8(sentinel_text(key, summary)).len() == 21 + encode_utf8(summary).len(),
{
    let digits = key.take(12);
    reveal_strlit("<<cof:");
    reveal_strlit(" ");
    reveal_strlit(">>");
    assert(is_ascii_chars(digits)) by {
        assert forall|i: int| 0 <= i < digits.len() implies '\0' <= #[trigger] digits[i]
            <= '\u{7f}' by {
            assert(is_hex_char(key[i]));
            vstd::utf8::char_u32_cast(digits[i], digits[i] as u32);
        }
    }
    vstd::utf8::is_ascii_chars_encode_utf8(digits);
    vstd::utf8::is_ascii_chars_encode_utf8("<<cof:"@);
    vstd::utf8::is_ascii_chars_encode_utf8(" "@);
    vstd::utf8::is_ascii_chars_encode_utf8(">>"@);
    lemma_encode_concat("<<cof:"@, digits);
    lemma_encode_concat("<<cof:"@ + digits, " "@);
    lemma_encode_concat("<<cof:"@ + digits + " "@, summary);
    lemma_encode_concat("<<cof:"@ + digits + " "@ + summary, ">>"@);
}

proof fn lemma_rendered_size_grows(segments: Seq<SegmentView>, n: int)
    requires
        0 <= n <= segments.len(),
    ensures
        rendered_size(segments.take(n)) <= rendered_size(segments),
    decreases segments.len(),
{
    if n < segments.len() {
        assert(segments.drop_last().take(n) =~= segments.take(n));
        lemma_rendered_size_grows(segments.drop_last(), n);
    } else {
        assert(segments.take(n) =~= segments);
    }
}

/// What the model sees is what it sees of each segment, one after the other: kept
/// bytes as text, and for a reference its sentinel.
pub proof fn law_rendering(segments: Seq<SegmentView>, segment: SegmentView)
    ensures
        rendered(Seq::empty()) == Seq::<char>::empty(),
        segment is Verbatim ==> rendered(segments.push(segment)) == rendered(segments) + utf8_lossy(
            segment->Verbatim_0,
        ),
        segment is Ref ==> rendered(segments.push(segment)) == rendered(segments) + ("<<cof:"@
            + segment->key.take(12) + " "@ + segment->summary + ">>"@),
        rendered_size(Seq::empty()) == 0,
        segment is Verbatim ==> rendered_size(segments.push(segment)) == rendered_size(segments)
            + segment->Verbatim_0.len(),
        segment is Ref ==> rendered_size(segments.push(segment)) == rendered_size(segments)
            + encode_utf8("<<cof:"@ + segment->key.take(12) + " "@ + segment->summary + ">>"@).len(),
{
    assert(segments.push(segment).drop_last() =~= segments);
}

/// A document is rebuilt segment by segment: kept bytes as they are, a reference
/// from what the store has under its key, if that has the recorded length and the
/// key as its hash. The first segment of which that does not hold is the error,
/// by what is wrong with it.
pub proof fn law_rebuilding(
    segments: Seq<SegmentView>,
    segment: SegmentView,
    objects: Map<Seq<char>, Seq<u8>>,
)
    ensures
        rebuilt(Seq::empty(), objects) == Ok::<Seq<u8>, Fault>(Seq::empty()),
        rebuilt(segments, objects) is Err ==> rebuilt(segments.push(segment), objects) == rebuilt(
            segments,
            objects,
        ),
        rebuilt(segments, objects) is Ok && segment is Verbatim ==> rebuilt(
            segments.push(segment),
            objects,
        ) == Ok::<Seq<u8>, Fault>(rebuilt(segments, objects)->Ok_0 + segment->Verbatim_0),
        rebuilt(segments, objects) is Ok && segment is Ref ==> rebuilt(
            segments.push(segment),
            objects,
        ) == (if !objects.dom().contains(segment->key) {
            Err::<Seq<u8>, Fault>(Fault::Missing(segment->key))
        } else if objects[segment->key].len() != segment->original_len {
            Err(
                Fault::Length {
                    got: objects[segment->key].len(),
                    expected: segment->original_len,
                },
            )
        } else if content_key(objects[segment->key]) != segment->key {
            Err(Fault::Mismatch(segment->key))
        } else {
            Ok(rebuilt(segments, objects)->Ok_0 + objects[segment->key])
        }),
{
    assert(segments.push(segment).drop_last() =~= segments);
}

/// A document has every one of its segments, as they are.
pub proof fn law_segment_views(
    segments: Seq<Segment>,
    bytes: Vec<u8>,
    hash: ContentHash,
    summary: String,
    original_len: usize,
    i: int,
)
    ensures
        segment_views(segments).len() == segments.len(),
        0 <= i < segments.len() ==> segment_views(segments)[i] == segments[i]@,
        Segment::Verbatim(bytes)@ == SegmentView::Verbatim(bytes@),
        (Segment::Ref { hash, summary, original_len })@ == (SegmentView::Ref {
            key: hash@,
            summary: summary@,
            original_len: original_len as nat,
        }),
{
}

/// An error of a document says which reference failed and how.
pub proof fn law_reconstruct_errors(key: String, got: usize, expected: usize)
    ensures
        ReconstructError::MissingOriginal(key)@ == Fault::Missing(key@),
        (ReconstructError::LengthMismatch { got, expected })@ == (Fault::Length {
            got: got as nat,
            expected: expected as nat,
        }),
        ReconstructError::HashMismatch(key)@ == Fault::Mismatch(key@),
        ReconstructError::MissingOriginal(key).text()
            == "CAS is missing the original bytes for hash "@ + key@,
        (ReconstructError::LengthMismatch { got, expected }).text() == "recovered "@ + decimal(
            got as nat,
        ) + " bytes but the segment recorded "@ + decimal(expected as nat),
        ReconstructError::HashMismatch(key).text()
            == "CAS returned bytes whose hash does not match key "@ + key@
            + " (corrupt or dishonest backend)"@,
{
}

} // verus!
