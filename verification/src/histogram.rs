//! Histograms: a numeric field in buckets of equal width, and the lines of a
//! text that hold a pattern in windows of equal length.
use crate::groups::{
    assigned_views, finish_groups, group_key_view, group_views, grouped, GroupKey, GroupPart,
    GroupPlan, GroupView,
};
use crate::json::{rank, trees, Json, Tree};
use crate::op::rank_of;
use crate::query::{agg_label, agg_text, parse_rows, rows_of, Agg, AggView, Reduction, ReductionView};
use crate::text::{
    chars_of, contains_text, decimal, decimal_of, decimal_of_u128, has_chars, lines, lines_of,
    seqs, string_of,
};
use crate::utf8::{lossy_text, lowercase, unicode_lower, utf8_lossy};
use vstd::prelude::*;

verus! {

// ---------------------------------------------------------------------------
// Buckets
// ---------------------------------------------------------------------------

/// The bits of a double that is positive and finite.
pub open spec fn positive_finite(bits: u64) -> bool {
    0 < bits < 0x7ff0_0000_0000_0000
}

/// The doubles of a field, record by record: a record without the field has
/// none. Nothing, if a value is no finite double.
pub open spec fn field_doubles(rows: Seq<Tree>, field: Seq<char>) -> Option<Seq<Option<u64>>>
    decreases rows.len(),
{
    if rows.len() == 0 {
        Some(Seq::empty())
    } else {
        match field_doubles(rows.drop_last(), field) {
            None => None,
            Some(before) => match rows.last().get(field) {
                None => Some(before.push(None)),
                Some(v) => match v.double() {
                    Some(bits) => Some(before.push(Some(bits))),
                    None => None,
                },
            },
        }
    }
}

proof fn lemma_field_doubles_none(rows: Seq<Tree>, field: Seq<char>, n: int)
    requires
        0 <= n <= rows.len(),
        field_doubles(rows.take(n), field) is None,
    ensures
        field_doubles(rows, field) is None,
    decreases rows.len(),
{
    if n < rows.len() {
        assert(rows.drop_last().take(n) =~= rows.take(n));
        lemma_field_doubles_none(rows.drop_last(), field, n);
    } else {
        assert(rows.take(n) =~= rows);
    }
}

/// The values to put into buckets, record by record. They are refused where the
/// width is not positive and finite, or where the field is there without being
/// a finite double.
pub fn bucket_values(rows: &[Json], bucket_field: &str, width: u64) -> (out: Option<
    Vec<Option<u64>>,
>)
    ensures
        match out {
            Some(v) => positive_finite(width) && field_doubles(trees(rows@), bucket_field@) == Some(
                v@,
            ) && v@.len() == rows@.len(),
            None => !positive_finite(width) || field_doubles(trees(rows@), bucket_field@) is None,
        },
{
    if width == 0 || width >= 0x7ff0_0000_0000_0000 {
        return None;
    }
    let ghost ts = trees(rows@);
    let mut out: Vec<Option<u64>> = Vec::new();
    let mut i: usize = 0;
    assert(ts.take(0) =~= Seq::empty());
    while i < rows.len()
        invariant
            i <= rows@.len(),
            ts == trees(rows@),
            out@.len() == i,
            field_doubles(ts.take(i as int), bucket_field@) == Some(out@),
        decreases rows@.len() - i,
    {
        let ghost next = ts.take(i as int + 1);
        assert(next.drop_last() =~= ts.take(i as int));
        assert(next.last() == rows@[i as int]@);
        match rows[i].get(bucket_field) {
            None => {
                out.push(None);
            },
            Some(value) => match value.double() {
                Some(bits) => {
                    out.push(Some(bits));
                },
                None => {
                    proof {
                        lemma_field_doubles_none(ts, bucket_field@, i as int + 1);
                    }
                    return None;
                },
            },
        }
        i += 1;
    }
    assert(ts.take(i as int) =~= ts);
    Some(out)
}

/// The lower bound of a bucket: its bits, and its text, which is its key.
pub struct Low {
    /// The bits of the bound.
    pub bits: u64,
    /// The text of the bound.
    pub key: String,
}

/// The bound of each record as a group key: the groups are ordered by the bound.
pub open spec fn low_keys(lows: Seq<Option<Low>>) -> Seq<Option<(int, Seq<char>)>> {
    Seq::new(
        lows.len(),
        |i: int|
            match lows[i] {
                Some(low) => Some((rank(low.bits), low.key@)),
                None => None,
            },
    )
}

/// The summary line of a bucketed aggregate.
pub open spec fn bucket_text(
    agg: AggView,
    field: Seq<char>,
    width: Seq<char>,
    buckets: nat,
) -> Seq<char> {
    "[index] "@ + agg_text(agg) + " bucketed by "@ + field + " width "@ + width + " -> "@ + decimal(
        buckets,
    ) + " buckets"@
}

/// Groups the records by the lower bounds that their values were given, and
/// aggregates each bucket.
pub fn bucket_aggregate_rows(
    rows: &[Json],
    bucket_field: &str,
    width_shown: &str,
    lows: &[Option<Low>],
    agg: &Agg,
) -> (out: Option<GroupPlan>)
    requires
        lows@.len() == rows@.len(),
    ensures
        match out {
            Some(plan) => {
                &&& grouped(trees(rows@), low_keys(lows@), agg@) == Some(group_views(plan.groups@))
                &&& plan.display@ == bucket_text(
                    agg@,
                    bucket_field@,
                    width_shown@,
                    plan.groups@.len(),
                )
            },
            None => grouped(trees(rows@), low_keys(lows@), agg@) is None,
        },
{
    let ghost wanted = low_keys(lows@);
    let mut assigned: Vec<Option<GroupKey>> = Vec::new();
    let mut i: usize = 0;
    assert(assigned_views(assigned@) =~= wanted.take(0));
    while i < lows.len()
        invariant
            i <= lows@.len(),
            wanted == low_keys(lows@),
            assigned@.len() == i,
            assigned_views(assigned@) == wanted.take(i as int),
        decreases lows@.len() - i,
    {
        let key: Option<GroupKey> = match &lows[i] {
            Some(low) => Some(
                GroupKey { weight: rank_of(low.bits) as i128, key: low.key.clone() },
            ),
            None => None,
        };
        let ghost before = assigned_views(assigned@);
        let ghost entry = group_key_view(key);
        assigned.push(key);
        assert(assigned_views(assigned@) =~= before.push(entry));
        assert(entry == wanted[i as int]);
        assert(wanted.take(i as int + 1) =~= wanted.take(i as int).push(wanted[i as int]));
        i += 1;
    }
    assert(wanted.take(i as int) =~= wanted);
    match finish_groups(rows, assigned.as_slice(), agg) {
        None => None,
        Some(groups) => {
            let display = "[index] ".to_owned().concat(agg_label(agg).as_str()).concat(
                " bucketed by ",
            ).concat(bucket_field).concat(" width ").concat(width_shown).concat(" -> ").concat(
                decimal_of(groups.len()).as_str(),
            ).concat(" buckets");
            Some(GroupPlan { display, groups })
        },
    }
}

/// The records of an input and the values to put into buckets.
pub struct BucketPlan {
    /// The records.
    pub rows: Vec<Json>,
    /// The value of each record, by the bits of a double.
    pub values: Vec<Option<u64>>,
}

/// Reads the JSON array in `input` and collects the values to put into buckets.
/// What bucket a value falls into is floating-point work; its outcome goes to
/// `bucket_aggregate_rows`.
pub fn bucket_aggregate(input: &[u8], bucket_field: &str, width: u64) -> (out: Option<BucketPlan>)
    ensures
        match out {
            Some(plan) => {
                &&& rows_of(input@) == Some(trees(plan.rows@))
                &&& positive_finite(width)
                &&& field_doubles(trees(plan.rows@), bucket_field@) == Some(plan.values@)
                &&& plan.values@.len() == plan.rows@.len()
            },
            None => rows_of(input@) is None || !positive_finite(width) || field_doubles(
                rows_of(input@)->0,
                bucket_field@,
            ) is None,
        },
{
    match parse_rows(input) {
        None => None,
        Some(rows) => match bucket_values(rows.as_slice(), bucket_field, width) {
            None => None,
            Some(values) => Some(BucketPlan { rows, values }),
        },
    }
}

// ---------------------------------------------------------------------------
// Windows of lines
// ---------------------------------------------------------------------------

/// The line holds the pattern, whatever the case.
pub open spec fn line_hits(line: Seq<char>, pattern: Seq<char>) -> bool {
    contains_text(unicode_lower(line), unicode_lower(pattern))
}

/// The windows that hold a hit, in order: the number of each window and the
/// lines in it that hold the pattern, counted from 1.
pub open spec fn hit_windows(ls: Seq<Seq<char>>, pattern: Seq<char>, window: nat) -> Seq<
    (nat, Seq<usize>),
>
    decreases ls.len(),
{
    if ls.len() == 0 {
        Seq::empty()
    } else {
        let before = hit_windows(ls.drop_last(), pattern, window);
        let at = ((ls.len() - 1) as nat / window) as nat;
        let line = ls.len() as usize;
        if !line_hits(ls.last(), pattern) {
            before
        } else if before.len() > 0 && before.last().0 == at {
            before.update(before.len() - 1, (at, before.last().1.push(line)))
        } else {
            before.push((at, seq![line]))
        }
    }
}

/// The key of a window: the range of its lines, counted from 1.
pub open spec fn window_key(at: nat, window: nat) -> Seq<char> {
    "lines "@ + decimal(at * window + 1) + "-"@ + decimal(at * window + window)
}

/// One window as a group.
pub open spec fn window_group(w: (nat, Seq<usize>), window: nat) -> GroupView {
    GroupView {
        key: window_key(w.0, window),
        reduction: ReductionView::Count(w.1.len()),
        matched: w.1,
    }
}

/// The windows as groups.
pub open spec fn window_groups(found: Seq<(nat, Seq<usize>)>, window: nat) -> Seq<GroupView> {
    Seq::new(found.len(), |i: int| window_group(found[i], window))
}

/// The summary line of a window histogram.
pub open spec fn windows_text(pattern: Seq<char>, window: nat, groups: nat) -> Seq<char> {
    "[lines] '"@ + pattern + "' per "@ + decimal(window) + "-line window -> "@ + decimal(groups)
        + " non-empty windows"@
}

/// One window that is being filled.
struct OpenWindow {
    at: usize,
    lines: Vec<usize>,
}

/// The windows being filled as plain values.
spec fn open_views(windows: Seq<OpenWindow>) -> Seq<(nat, Seq<usize>)> {
    Seq::new(windows.len(), |i: int| (windows[i].at as nat, windows[i].lines@))
}

/// Counts the lines that hold `pattern`, whatever the case, in each window of
/// `window` lines. Only windows with such a line appear. It is refused where the
/// window or the pattern is empty.
pub fn count_matches_per_window(text: &[u8], pattern: &str, window: usize) -> (out: Option<
    GroupPlan,
>)
    ensures
        match out {
            Some(plan) => {
                let found = hit_windows(lines(utf8_lossy(text@)), pattern@, window as nat);
                &&& window > 0
                &&& pattern@.len() > 0
                &&& group_views(plan.groups@) == window_groups(found, window as nat)
                &&& plan.display@ == windows_text(pattern@, window as nat, found.len())
            },
            None => window == 0 || pattern@.len() == 0,
        },
{
    if window == 0 || pattern.unicode_len() == 0 {
        return None;
    }
    let hay = lossy_text(text);
    let hay_chars = chars_of(hay.as_str());
    let all = lines_of(&hay_chars);
    let ghost ls = seqs(all@);
    let low = lowercase(pattern);
    let needle = chars_of(low.as_str());
    let mut windows: Vec<OpenWindow> = Vec::new();
    let mut i: usize = 0;
    assert(open_views(windows@) =~= Seq::empty());
    while i < all.len()
        invariant
            i <= all@.len(),
            window > 0,
            ls == seqs(all@),
            needle@ == unicode_lower(pattern@),
            open_views(windows@) == hit_windows(ls.take(i as int), pattern@, window as nat),
            forall|k: int|
                0 <= k < windows@.len() ==> (#[trigger] windows@[k]).at * window < i,
        decreases all@.len() - i,
    {
        let ghost next = ls.take(i as int + 1);
        assert(next.drop_last() =~= ls.take(i as int));
        assert(next.last() == all@[i as int]@);
        let line = string_of(&all[i]);
        let line_low = lowercase(line.as_str());
        let line_chars = chars_of(line_low.as_str());
        if has_chars(&line_chars, &needle) {
            let at: usize = i / window;
            assert(at * window <= i) by (nonlinear_arith)
                requires
                    at == i / window,
                    window > 0,
            ;
            let ghost before = open_views(windows@);
            let n: usize = windows.len();
            let same = n > 0 && windows[n - 1].at == at;
            if same {
                let mut last = windows.pop().unwrap();
                last.lines.push(i + 1);
                windows.push(last);
                assert(open_views(windows@) =~= before.update(
                    n - 1,
                    (at as nat, before.last().1.push((i + 1) as usize)),
                ));
            } else {
                let mut lines: Vec<usize> = Vec::new();
                lines.push(i + 1);
                assert(lines@ =~= seq![(i + 1) as usize]);
                windows.push(OpenWindow { at, lines });
                assert(open_views(windows@) =~= before.push(
                    (at as nat, seq![(i + 1) as usize]),
                ));
            }
        }
        i += 1;
    }
    assert(ls.take(i as int) =~= ls);
    let ghost found = open_views(windows@);
    let ghost held = windows@;
    let mut groups: Vec<GroupPart> = Vec::new();
    for w in it: windows
        invariant
            it.seq() == held,
            found == open_views(held),
            forall|k: int|
                0 <= k < held.len() ==> (#[trigger] held[k]).at * window < all@.len(),
            all@.len() <= usize::MAX,
            groups@.len() == it.index(),
            forall|k: int|
                0 <= k < groups@.len() ==> (#[trigger] groups@[k])@ == window_group(
                    found[k],
                    window as nat,
                ),
    {
        let ghost k = it.index() as int;
        assert(w == held[k]);
        assert(held[k].at * window < all@.len());
        let from: u128 = w.at as u128 * window as u128;
        let lo: u128 = from + 1;
        let hi: u128 = from + window as u128;
        let key = "lines ".to_owned().concat(decimal_of_u128(lo).as_str()).concat("-").concat(
            decimal_of_u128(hi).as_str(),
        );
        let ghost part_lines = w.lines@;
        assert(found[k] == (w.at as nat, part_lines));
        groups.push(
            GroupPart { key, reduction: Reduction::Count(w.lines.len()), matched: w.lines },
        );
    }
    assert(group_views(groups@) =~= window_groups(found, window as nat));
    let display = "[lines] '".to_owned().concat(pattern).concat("' per ").concat(
        decimal_of(window).as_str(),
    ).concat("-line window -> ").concat(decimal_of(groups.len()).as_str()).concat(
        " non-empty windows",
    );
    Some(GroupPlan { display, groups })
}

/// The windows hold every line that holds the pattern, and no other: each such
/// line stands in the window that its number falls into.
pub proof fn law_windows_hold_the_hits(ls: Seq<Seq<char>>, pattern: Seq<char>, window: nat)
    requires
        ls.len() <= usize::MAX,
        window > 0,
    ensures
        forall|k: int, p: int|
            #![trigger hit_windows(ls, pattern, window)[k].1[p]]
            0 <= k < hit_windows(ls, pattern, window).len() && 0 <= p < hit_windows(
                ls,
                pattern,
                window,
            )[k].1.len() ==> {
                let line = hit_windows(ls, pattern, window)[k].1[p] as int;
                &&& 1 <= line <= ls.len()
                &&& line_hits(ls[line - 1], pattern)
                &&& hit_windows(ls, pattern, window)[k].0 == (line - 1) / window as int
            },
        forall|i: int|
            0 <= i < ls.len() && line_hits(#[trigger] ls[i], pattern) ==> in_window(
                hit_windows(ls, pattern, window),
                (i + 1) as usize,
            ),
    decreases ls.len(),
{
    if ls.len() > 0 {
        let short = ls.drop_last();
        law_windows_hold_the_hits(short, pattern, window);
        let before = hit_windows(short, pattern, window);
        let found = hit_windows(ls, pattern, window);
        let n = ls.len() as int;
        let at = (n - 1) / window as int;
        assert(forall|i: int| 0 <= i < short.len() ==> #[trigger] short[i] == ls[i]);
        assert(ls[n - 1] == ls.last());
        let hit = line_hits(ls.last(), pattern);
        let joined = before.len() > 0 && before.last().0 == at;
        assert forall|k: int, p: int|
            #![trigger found[k].1[p]]
            0 <= k < found.len() && 0 <= p < found[k].1.len() implies ({
            let line = found[k].1[p] as int;
            &&& 1 <= line <= ls.len()
            &&& line_hits(ls[line - 1], pattern)
            &&& found[k].0 == (line - 1) / window as int
        }) by {
            if k < before.len() && p < before[k].1.len() {
                assert(found[k].1[p] == before[k].1[p]);
                assert(found[k].0 == before[k].0);
                let line = before[k].1[p] as int;
                assert(short[line - 1] == ls[line - 1]);
            } else {
                assert(hit);
                assert(found[k].1[p] == n as usize);
            }
        }
        assert forall|i: int| 0 <= i < ls.len() && line_hits(#[trigger] ls[i], pattern) implies in_window(
            found,
            (i + 1) as usize,
        ) by {
            if i < n - 1 {
                assert(short[i] == ls[i]);
                let line = (i + 1) as usize;
                let (k, p) = choose|k: int, p: int|
                    #![trigger before[k].1[p]]
                    0 <= k < before.len() && 0 <= p < before[k].1.len() && before[k].1[p] == line;
                assert(found[k].1[p] == line);
            } else {
                let k = found.len() - 1;
                let p = found[k].1.len() - 1;
                assert(found[k].1[p] == n as usize);
            }
        }
    }
}

/// The line stands in one of the windows.
pub open spec fn in_window(found: Seq<(nat, Seq<usize>)>, line: usize) -> bool {
    exists|k: int, p: int|
        #![trigger found[k].1[p]]
        0 <= k < found.len() && 0 <= p < found[k].1.len() && found[k].1[p] == line
}

/// A field is put into buckets if each record that has it has a finite double
/// there; then every record has its own, or none.
pub proof fn law_field_doubles(rows: Seq<Tree>, field: Seq<char>)
    ensures
        field_doubles(rows, field) is Some <==> forall|i: int|
            0 <= i < rows.len() && (#[trigger] rows[i]).get(field) is Some ==> rows[i].get(
                field,
            )->0.double() is Some,
        field_doubles(rows, field) is Some ==> field_doubles(rows, field)->0 == rows.map_values(
            |r: Tree|
                match r.get(field) {
                    Some(v) => v.double(),
                    None => None,
                },
        ),
    decreases rows.len(),
{
    if rows.len() > 0 {
        let before = rows.drop_last();
        assert(forall|i: int| 0 <= i < before.len() ==> #[trigger] before[i] == rows[i]);
        law_field_doubles(before, field);
        assert(rows[rows.len() - 1] == rows.last());
        if field_doubles(rows, field) is Some {
            assert forall|i: int|
                0 <= i < rows.len() && (#[trigger] rows[i]).get(field) is Some implies rows[i].get(
                field,
            )->0.double() is Some by {
                if i < before.len() {
                    assert(before[i].get(field) is Some);
                }
            }
        } else if field_doubles(before, field) is None {
            let i = choose|i: int|
                0 <= i < before.len() && (#[trigger] before[i]).get(field) is Some && before[i].get(
                    field,
                )->0.double() is None;
            assert(rows[i].get(field) is Some);
        }
    }
    if field_doubles(rows, field) is Some {
        assert(field_doubles(rows, field)->0 =~= rows.map_values(
            |r: Tree|
                match r.get(field) {
                    Some(v) => v.double(),
                    None => None,
                },
        ));
    }
}

/// A bucket is as wide as a double that is greater than zero and finite; the
/// groups are ordered by where their buckets start.
pub proof fn law_buckets(bits: u64, lows: Seq<Option<Low>>, agg: AggView, field: Seq<char>, width: Seq<char>, n: nat)
    ensures
        positive_finite(bits) <==> 0 < bits && bits < 0x7ff0_0000_0000_0000,
        low_keys(lows) == lows.map_values(
            |l: Option<Low>|
                match l {
                    Some(low) => Some((rank(low.bits), low.key@)),
                    None => None,
                },
        ),
        bucket_text(agg, field, width, n) == "[index] "@ + agg_text(agg) + " bucketed by "@ + field
            + " width "@ + width + " -> "@ + decimal(n) + " buckets"@,
{
    assert(low_keys(lows) =~= lows.map_values(
        |l: Option<Low>|
            match l {
                Some(low) => Some((rank(low.bits), low.key@)),
                None => None,
            },
    ));
}

/// The windows with a hit come in order, each once, and none is empty; the hits in
/// each come in order, each once.
pub proof fn law_windows_in_order(ls: Seq<Seq<char>>, pattern: Seq<char>, window: nat)
    requires
        ls.len() <= usize::MAX,
        window > 0,
    ensures
        ({
            let found = hit_windows(ls, pattern, window);
            &&& forall|i: int, j: int|
                0 <= i < j < found.len() ==> (#[trigger] found[i]).0 < (#[trigger] found[j]).0
            &&& forall|i: int| 0 <= i < found.len() ==> (#[trigger] found[i]).1.len() > 0
            &&& forall|i: int, a: int, b: int|
                0 <= i < found.len() && 0 <= a < b < found[i].1.len() ==> #[trigger] found[i].1[a]
                    < #[trigger] found[i].1[b]
            &&& forall|i: int, a: int|
                0 <= i < found.len() && 0 <= a < found[i].1.len() ==> #[trigger] found[i].1[a]
                    <= ls.len()
            &&& forall|i: int|
                0 <= i < found.len() ==> (#[trigger] found[i]).0 * window < ls.len()
        }),
    decreases ls.len(),
{
    if ls.len() > 0 {
        let rest = ls.drop_last();
        let before = hit_windows(rest, pattern, window);
        let found = hit_windows(ls, pattern, window);
        law_windows_in_order(rest, pattern, window);
        let last = (ls.len() - 1) as nat;
        let at = (last / window) as nat;
        assert(at * window <= last && last < (at + 1) * window) by (nonlinear_arith)
            requires
                window > 0,
                at == last / window,
        ;
        assert forall|i: int| 0 <= i < before.len() implies (#[trigger] before[i]).0 <= at by {
            let w = before[i].0;
            assert(w * window < last);
            assert(w <= at) by (nonlinear_arith)
                requires
                    w * window < last,
                    last < (at + 1) * window,
                    window > 0,
            ;
        }
        if line_hits(ls.last(), pattern) {
            assert forall|i: int, j: int| 0 <= i < j < found.len() implies (#[trigger] found[i]).0
                < (#[trigger] found[j]).0 by {
                if j < before.len() {
                    assert(before[i].0 < before[j].0);
                } else {
                    assert(before[i].0 <= at);
                    if i < before.len() - 1 {
                        assert(before[i].0 < before[before.len() - 1].0);
                        assert(before[before.len() - 1].0 <= at);
                    }
                }
            }
            assert forall|i: int, a: int, b: int|
                0 <= i < found.len() && 0 <= a < b < found[i].1.len() implies
                #[trigger] found[i].1[a] < #[trigger] found[i].1[b] by {
                if i < before.len() && found[i] == before[i] {
                    assert(before[i].1[a] < before[i].1[b]);
                } else if i < before.len() {
                    if b < before[i].1.len() {
                        assert(before[i].1[a] < before[i].1[b]);
                    } else {
                        assert(before[i].1[a] <= rest.len());
                    }
                }
            }
            assert forall|i: int, a: int| 0 <= i < found.len() && 0 <= a < found[i].1.len() implies
                #[trigger] found[i].1[a] <= ls.len() by {
                if i < before.len() && a < before[i].1.len() {
                    assert(before[i].1[a] <= rest.len());
                }
            }
        }
    }
}

/// A window is told by its first and last line, counted from 1, with the number of
/// its hits; an input without a hit has none.
pub proof fn law_window_groups(
    found: Seq<(nat, Seq<usize>)>,
    window: nat,
    pattern: Seq<char>,
    n: nat,
    line: Seq<char>,
)
    ensures
        window_groups(found, window) == found.map_values(
            |w: (nat, Seq<usize>)|
                GroupView {
                    key: "lines "@ + decimal(w.0 * window + 1) + "-"@ + decimal(
                        w.0 * window + window,
                    ),
                    reduction: ReductionView::Count(w.1.len()),
                    matched: w.1,
                },
        ),
        windows_text(pattern, window, n) == "[lines] '"@ + pattern + "' per "@ + decimal(window)
            + "-line window -> "@ + decimal(n) + " non-empty windows"@,
        line_hits(line, pattern) <==> contains_text(unicode_lower(line), unicode_lower(pattern)),
{
    assert(window_groups(found, window) =~= found.map_values(
        |w: (nat, Seq<usize>)|
            GroupView {
                key: "lines "@ + decimal(w.0 * window + 1) + "-"@ + decimal(w.0 * window + window),
                reduction: ReductionView::Count(w.1.len()),
                matched: w.1,
            },
    ));
}

} // verus!
