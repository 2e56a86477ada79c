//! A reproducible record dump, and the window that a truncation at the head and
//! the tail leaves of it.
use crate::hash::{hex, hex_encode};
use crate::json::{compact, field_trees, trees, Json, Tree};
use crate::op::Op;
use crate::query::Predicate;
use crate::text::{chars_of, decimal, decimal_of, decimal_of_u64};
use vstd::prelude::*;
use vstd::utf8::encode_utf8;

verus! {

// ---------------------------------------------------------------------------
// Numbers
// ---------------------------------------------------------------------------

/// The step of the generator's state.
pub const STEP: u64 = 0x9E37_79B9_7F4A_7C15;

/// The number that a state gives.
pub open spec fn mixed(z: u64) -> u64 {
    let a = (z ^ (z >> 30)).wrapping_mul(0xBF58_476D_1CE4_E5B9);
    let b = (a ^ (a >> 27)).wrapping_mul(0x94D0_49BB_1331_11EB);
    b ^ (b >> 31)
}

/// The state after `n` numbers.
pub open spec fn state_after(seed: u64, n: nat) -> u64
    decreases n,
{
    if n == 0 {
        seed
    } else {
        state_after(seed, (n - 1) as nat).wrapping_add(STEP)
    }
}

/// Number `n` of the sequence, counted from 0.
pub open spec fn drawn(seed: u64, n: nat) -> u64 {
    mixed(state_after(seed, n + 1))
}

/// A generator of numbers: the same sequence for the same seed.
pub struct Rng {
    state: u64,
}

impl Rng {
    /// The state of the generator.
    pub closed spec fn at(&self) -> u64 {
        self.state
    }

    /// The generator for a seed.
    pub fn new(seed: u64) -> (out: Rng)
        ensures
            out.at() == seed,
    {
        Rng { state: seed }
    }

    /// The next number.
    pub fn next(&mut self) -> (out: u64)
        ensures
            final(self).at() == old(self).at().wrapping_add(STEP),
            out == mixed(final(self).at()),
    {
        self.state = self.state.wrapping_add(STEP);
        let z: u64 = self.state;
        let a: u64 = (z ^ (z >> 30)).wrapping_mul(0xBF58_476D_1CE4_E5B9);
        let b: u64 = (a ^ (a >> 27)).wrapping_mul(0x94D0_49BB_1331_11EB);
        b ^ (b >> 31)
    }

    /// The next number, reduced to below `n`.
    pub fn below(&mut self, n: u64) -> (out: u64)
        requires
            n > 0,
        ensures
            final(self).at() == old(self).at().wrapping_add(STEP),
            out == mixed(final(self).at()) % n,
            out < n,
    {
        self.next() % n
    }
}

// ---------------------------------------------------------------------------
// Records
// ---------------------------------------------------------------------------

/// The status of a record.
#[derive(Clone, Copy, Debug, PartialEq, Eq, Structural)]
pub enum Phase {
    /// It runs.
    Running,
    /// It is done.
    Completed,
    /// It waits.
    Pending,
    /// It fails again and again.
    CrashLoop,
    /// It has failed.
    Error,
}

/// The phase for a roll below 100.
pub open spec fn phase_of(roll: nat) -> Phase {
    if roll < 70 {
        Phase::Running
    } else if roll < 82 {
        Phase::Completed
    } else if roll < 91 {
        Phase::Pending
    } else if roll < 97 {
        Phase::CrashLoop
    } else {
        Phase::Error
    }
}

/// The name of a phase.
pub open spec fn phase_name(phase: Phase) -> Seq<char> {
    match phase {
        Phase::Running => "Running"@,
        Phase::Completed => "Completed"@,
        Phase::Pending => "Pending"@,
        Phase::CrashLoop => "CrashLoopBackOff"@,
        Phase::Error => "Error"@,
    }
}

impl Phase {
    /// The name of the phase.
    pub fn name(self) -> (s: &'static str)
        ensures
            s@ == phase_name(self),
    {
        match self {
            Phase::Running => "Running",
            Phase::Completed => "Completed",
            Phase::Pending => "Pending",
            Phase::CrashLoop => "CrashLoopBackOff",
            Phase::Error => "Error",
        }
    }
}

/// Rolls a status: 70 records in 100 run, 12 are done, 9 wait, 6 fail again and
/// again, and 3 have failed.
pub fn pick_status(rng: &mut Rng) -> (out: Phase)
    ensures
        final(rng).at() == old(rng).at().wrapping_add(STEP),
        out == phase_of((mixed(final(rng).at()) % 100) as nat),
{
    let roll: u64 = rng.below(100);
    if roll < 70 {
        Phase::Running
    } else if roll < 82 {
        Phase::Completed
    } else if roll < 91 {
        Phase::Pending
    } else if roll < 97 {
        Phase::CrashLoop
    } else {
        Phase::Error
    }
}

/// How often a record has restarted.
pub open spec fn restarts_of(phase: Phase, draw: u64) -> nat {
    match phase {
        Phase::CrashLoop => (3 + draw % 28) as nat,
        Phase::Error => (1 + draw % 12) as nat,
        _ => (draw % 3) as nat,
    }
}

/// The namespace for a draw below 4.
pub open spec fn namespace_of(draw: nat) -> Seq<char> {
    if draw == 0 {
        "default"@
    } else if draw == 1 {
        "kube-system"@
    } else if draw == 2 {
        "prod"@
    } else {
        "staging"@
    }
}

/// A text filled up with zeros on the left.
pub open spec fn zero_filled(s: Seq<char>, width: nat) -> Seq<char> {
    if s.len() < width {
        Seq::new((width - s.len()) as nat, |i: int| '0') + s
    } else {
        s
    }
}

/// How many numbers a record takes.
pub const DRAWS: usize = 7;

/// The restarts of the record in the middle, above all others.
pub const NEEDLE: i64 = 99999;

/// Record `i`, from numbers `7 * i` up to `7 * i + 6`. The one in the middle
/// restarts far more often than any other.
pub open spec fn record(seed: u64, i: nat, middle: bool) -> Tree {
    let from = i * DRAWS as nat;
    let rolled = phase_of((drawn(seed, from) % 100) as nat);
    let phase = if middle {
        Phase::CrashLoop
    } else {
        rolled
    };
    let restarts = if middle {
        NEEDLE as nat
    } else {
        restarts_of(rolled, drawn(seed, from + 1))
    };
    let tag = (drawn(seed, from + 5) % 0x1_0000) as nat;
    Tree::Object(
        seq![
            (
                "name"@,
                Tree::Text(
                    "svc-"@ + zero_filled(decimal(i), 5) + "-"@ + hex(
                        seq![(tag / 256) as u8, (tag % 256) as u8],
                    ),
                ),
            ),
            ("namespace"@, Tree::Text(namespace_of((drawn(seed, from + 4) % 4) as nat))),
            ("status"@, Tree::Text(phase_name(phase))),
            ("restarts"@, Tree::Number(decimal(restarts))),
            ("cpu_m"@, Tree::Number(decimal((5 + drawn(seed, from + 2) % 900) as nat))),
            ("mem_mib"@, Tree::Number(decimal((16 + drawn(seed, from + 3) % 2048) as nat))),
            (
                "node"@,
                Tree::Text(
                    "node-"@ + zero_filled(decimal((drawn(seed, from + 6) % 24) as nat), 2),
                ),
            ),
            ("ready"@, Tree::Bool(phase == Phase::Running || phase == Phase::Completed)),
        ],
    )
}

/// The seed of the sequence for the seed of a dump.
pub open spec fn inner_seed(seed: u64) -> u64 {
    seed ^ 0x1234_5678_9ABC_DEF0
}

/// The records of a dump.
pub open spec fn dump(n: nat, seed: u64) -> Seq<Tree> {
    Seq::new(n, |i: int| record(inner_seed(seed), i as nat, i == n / 2))
}

fn zero_fill(text: String, width: usize) -> (out: String)
    ensures
        out@ == zero_filled(text@, width as nat),
{
    let len: usize = chars_of(text.as_str()).len();
    if len >= width {
        return text;
    }
    let mut out = String::new();
    let mut i: usize = len;
    while i < width
        invariant
            len <= i <= width,
            out@ =~= Seq::new((i - len) as nat, |k: int| '0'),
        decreases width - i,
    {
        out.push('0');
        i += 1;
    }
    out.concat(text.as_str())
}

fn entry(name: &str, value: Json) -> (out: (String, Json))
    ensures
        out.0@ == name@,
        out.1@ == value@,
{
    (name.to_owned(), value)
}

proof fn lemma_next_state(seed: u64, n: nat, state: u64)
    requires
        state == state_after(seed, n),
    ensures
        state.wrapping_add(STEP) == state_after(seed, n + 1),
        mixed(state.wrapping_add(STEP)) == drawn(seed, n),
{
}

fn make_record(rng: &mut Rng, i: usize, middle: bool, seed: Ghost<u64>) -> (out: Json)
    requires
        old(rng).at() == state_after(seed@, i as nat * DRAWS as nat),
    ensures
        final(rng).at() == state_after(seed@, (i as nat + 1) * DRAWS as nat),
        out@ == record(seed@, i as nat, middle),
{
    let ghost from = i as nat * DRAWS as nat;
    proof {
        lemma_next_state(seed@, from, rng.at());
    }
    let rolled = pick_status(rng);
    proof {
        lemma_next_state(seed@, from + 1, rng.at());
    }
    let counted: i64 = match rolled {
        Phase::CrashLoop => 3 + rng.below(28) as i64,
        Phase::Error => 1 + rng.below(12) as i64,
        _ => rng.below(3) as i64,
    };
    proof {
        lemma_next_state(seed@, from + 2, rng.at());
    }
    let cpu: i64 = 5 + rng.below(900) as i64;
    proof {
        lemma_next_state(seed@, from + 3, rng.at());
    }
    let mem: i64 = 16 + rng.below(2048) as i64;
    proof {
        lemma_next_state(seed@, from + 4, rng.at());
    }
    let space: u64 = rng.below(4);
    let namespace = if space == 0 {
        "default"
    } else if space == 1 {
        "kube-system"
    } else if space == 2 {
        "prod"
    } else {
        "staging"
    };
    proof {
        lemma_next_state(seed@, from + 5, rng.at());
    }
    let tag: u64 = rng.below(0x1_0000);
    proof {
        lemma_next_state(seed@, from + 6, rng.at());
    }
    let node: u64 = rng.below(24);
    let phase = if middle {
        Phase::CrashLoop
    } else {
        rolled
    };
    let restarts: i64 = if middle {
        NEEDLE
    } else {
        counted
    };
    let mut digits: Vec<u8> = Vec::new();
    digits.push((tag / 256) as u8);
    digits.push((tag % 256) as u8);
    assert(digits@ =~= seq![(tag / 256) as u8, (tag % 256) as u8]);
    let name = "svc-".to_owned().concat(zero_fill(decimal_of(i), 5).as_str()).concat("-").concat(
        hex_encode(digits.as_slice()).as_str(),
    );
    let ready = phase == Phase::Running || phase == Phase::Completed;
    let mut fields: Vec<(String, Json)> = Vec::new();
    fields.push(entry("name", Json::Text(name)));
    fields.push(entry("namespace", Json::Text(namespace.to_owned())));
    fields.push(entry("status", Json::Text(phase.name().to_owned())));
    fields.push(entry("restarts", Json::number(restarts)));
    fields.push(entry("cpu_m", Json::number(cpu)));
    fields.push(entry("mem_mib", Json::number(mem)));
    fields.push(
        entry(
            "node",
            Json::Text(
                "node-".to_owned().concat(zero_fill(decimal_of_u64(node), 2).as_str()),
            ),
        ),
    );
    fields.push(entry("ready", Json::Bool(ready)));
    assert(from + 7 == (i as nat + 1) * DRAWS as nat) by (nonlinear_arith)
        requires
            from == i as nat * DRAWS as nat,
            DRAWS == 7,
    ;
    assert(field_trees(fields@) =~= record(seed@, i as nat, middle)->Object_0);
    Json::Object(fields)
}

/// A dump of `n` records: the records, and their bytes.
pub fn make_dump(n: usize, seed: u64) -> (out: (Vec<Json>, Vec<u8>))
    ensures
        trees(out.0@) == dump(n as nat, seed),
        out.1@ == encode_utf8(compact(Tree::Array(dump(n as nat, seed)))),
{
    let start: u64 = seed ^ 0x1234_5678_9ABC_DEF0;
    let ghost inner = inner_seed(seed);
    let mut rng = Rng::new(start);
    let mut rows: Vec<Json> = Vec::new();
    let mut i: usize = 0;
    let ghost wanted = dump(n as nat, seed);
    while i < n
        invariant
            i <= n,
            inner == inner_seed(seed),
            wanted == dump(n as nat, seed),
            rng.at() == state_after(inner, i as nat * DRAWS as nat),
            rows@.len() == i,
            forall|k: int| 0 <= k < i ==> (#[trigger] rows@[k])@ == wanted[k],
        decreases n - i,
    {
        let row = make_record(&mut rng, i, i == n / 2, Ghost(inner));
        rows.push(row);
        i += 1;
    }
    assert(trees(rows@) =~= wanted);
    let whole = Json::Array(rows);
    let text = whole.compact();
    let bytes = vstd::slice::slice_to_vec(text.as_str().as_bytes());
    match whole {
        Json::Array(rows) => (rows, bytes),
        _ => (Vec::new(), bytes),
    }
}

/// The comparison of a field with a text.
pub fn eq(field: &str, value: &str) -> (out: Predicate)
    ensures
        out.field@ == field@,
        out.op == Op::Eq,
        out.value@ == Tree::Text(value@),
{
    Predicate { field: field.to_owned(), op: Op::Eq, value: Json::Text(value.to_owned()) }
}

// ---------------------------------------------------------------------------
// Truncation
// ---------------------------------------------------------------------------

/// The records that a truncation keeps from `lo` up to `hi` with `used` tokens
/// used: alternately the first and the last, each with a token for the
/// separator, until the next one does not fit.
pub open spec fn kept_from(
    costs: Seq<usize>,
    budget: nat,
    lo: int,
    hi: int,
    used: nat,
    front: bool,
) -> Seq<usize>
    decreases hi - lo,
{
    if lo >= hi {
        Seq::empty()
    } else {
        let at = if front {
            lo
        } else {
            hi - 1
        };
        let now = used + costs[at] + 1;
        if now > budget {
            Seq::empty()
        } else if front {
            seq![at as usize] + kept_from(costs, budget, lo + 1, hi, now as nat, false)
        } else {
            seq![at as usize] + kept_from(costs, budget, lo, hi - 1, now as nat, true)
        }
    }
}

/// The records that a truncation keeps within a budget; the brackets around
/// them take two tokens.
pub fn truncation_window(per_row_tok: &[usize], budget_tok: usize) -> (out: Vec<usize>)
    ensures
        out@ == kept_from(
            per_row_tok@,
            budget_tok as nat,
            0,
            per_row_tok@.len() as int,
            2,
            true,
        ),
{
    let n: usize = per_row_tok.len();
    let mut visible: Vec<usize> = Vec::new();
    let mut used: u128 = 2;
    let mut lo: usize = 0;
    let mut hi: usize = n;
    let mut front = true;
    let mut going = true;
    let ghost wanted = kept_from(per_row_tok@, budget_tok as nat, 0, n as int, 2, true);
    let ghost mut rest = wanted;
    assert(visible@ + rest =~= wanted);
    while going && lo < hi
        invariant
            lo <= hi <= n == per_row_tok@.len(),
            going ==> rest == kept_from(
                per_row_tok@,
                budget_tok as nat,
                lo as int,
                hi as int,
                used as nat,
                front,
            ),
            !going ==> rest == Seq::<usize>::empty(),
            used <= budget_tok || used == 2,
            visible@ + rest == wanted,
        decreases hi - lo, going as int,
    {
        let at: usize = if front {
            lo
        } else {
            hi - 1
        };
        let now: u128 = used + per_row_tok[at] as u128 + 1;
        if now > budget_tok as u128 {
            going = false;
        } else {
            used = now;
            let ghost had = visible@;
            let ghost all = rest;
            visible.push(at);
            if front {
                lo += 1;
            } else {
                hi -= 1;
            }
            front = !front;
            proof {
                rest = kept_from(
                    per_row_tok@,
                    budget_tok as nat,
                    lo as int,
                    hi as int,
                    used as nat,
                    front,
                );
                assert(all =~= seq![at] + rest);
                assert(visible@ + rest =~= had + all);
            }
        }
    }
    assert(rest =~= Seq::empty());
    assert(visible@ + rest =~= visible@);
    visible
}

/// The tokens that the records take, each with one for the separator.
pub open spec fn cost_of(costs: Seq<usize>, shown: Seq<usize>) -> nat
    decreases shown.len(),
{
    if shown.len() == 0 {
        0
    } else {
        cost_of(costs, shown.skip(1)) + costs[shown[0] as int] as nat + 1
    }
}

/// A truncation stays within its budget, wherever it keeps a record.
pub proof fn law_truncation_fits(
    costs: Seq<usize>,
    budget: nat,
    lo: int,
    hi: int,
    used: nat,
    front: bool,
)
    requires
        0 <= lo <= hi <= costs.len() <= usize::MAX,
        used <= budget,
    ensures
        used + cost_of(costs, kept_from(costs, budget, lo, hi, used, front)) <= budget,
    decreases hi - lo,
{
    if lo < hi {
        let at = if front {
            lo
        } else {
            hi - 1
        };
        let now = (used + costs[at] + 1) as nat;
        if now <= budget {
            let rest = if front {
                kept_from(costs, budget, lo + 1, hi, now, false)
            } else {
                kept_from(costs, budget, lo, hi - 1, now, true)
            };
            if front {
                law_truncation_fits(costs, budget, lo + 1, hi, now, false);
            } else {
                law_truncation_fits(costs, budget, lo, hi - 1, now, true);
            }
            assert((seq![at as usize] + rest).skip(1) =~= rest);
        }
    }
}

/// The generator adds a fixed step to its state and mixes the sum by two rounds of
/// shift, exclusive or and multiplication, and a last shift.
pub proof fn law_generator(seed: u64, n: nat, z: u64)
    ensures
        state_after(seed, 0) == seed,
        state_after(seed, n + 1) == state_after(seed, n).wrapping_add(0x9E37_79B9_7F4A_7C15),
        drawn(seed, n) == mixed(state_after(seed, n + 1)),
        mixed(z) == ({
            let a = (z ^ (z >> 30)).wrapping_mul(0xBF58_476D_1CE4_E5B9);
            let b = (a ^ (a >> 27)).wrapping_mul(0x94D0_49BB_1331_11EB);
            b ^ (b >> 31)
        }),
{
}

/// One record stands out of a dump: the one in the middle is in a crash loop and
/// has 99999 restarts; every other has at most 30.
pub proof fn law_needle(n: nat, seed: u64, i: int)
    requires
        0 <= i < n,
    ensures
        dump(n, seed).len() == n,
        dump(n, seed)[i].get("restarts"@) is Some,
        i == n / 2 ==> dump(n, seed)[i].get("restarts"@) == Some(Tree::Number(decimal(99999)))
            && dump(n, seed)[i].get("status"@) == Some(Tree::Text("CrashLoopBackOff"@)),
        i != n / 2 ==> exists|r: nat|
            r <= 30 && dump(n, seed)[i].get("restarts"@) == Some(
                Tree::Number(#[trigger] decimal(r)),
            ),
{
    let s = inner_seed(seed);
    let t = dump(n, seed)[i];
    reveal_strlit("name");
    reveal_strlit("namespace");
    reveal_strlit("status");
    reveal_strlit("restarts");
    let fields = t->Object_0;
    assert("name"@.len() != "restarts"@.len());
    assert("namespace"@.len() != "restarts"@.len());
    assert("status"@.len() != "restarts"@.len());
    assert("name"@.len() != "status"@.len());
    assert("namespace"@.len() != "status"@.len());
    crate::json::law_field_lookup(t, "restarts"@, 3);
    crate::json::law_field_lookup(t, "status"@, 2);
    if i != n / 2 {
        let from = i as nat * DRAWS as nat;
        let rolled = phase_of((drawn(s, from) % 100) as nat);
        let r = restarts_of(rolled, drawn(s, from + 1));
        assert(r <= 30);
        assert(decimal(r) == decimal(r));
    }
}

/// A truncation keeps records from the front and the back in turn, beginning with
/// the first, and stops only at a record that does not fit.
pub proof fn law_truncation_order(costs: Seq<usize>, budget: nat, k: int)
    requires
        costs.len() <= usize::MAX,
        budget >= 2,
    ensures
        ({
            let out = kept_from(costs, budget, 0, costs.len() as int, 2, true);
            &&& out.len() <= costs.len()
            &&& 0 <= k < out.len() ==> out[k] == (if k % 2 == 0 {
                k / 2
            } else {
                costs.len() - 1 - k / 2
            })
            &&& out.len() < costs.len() ==> {
                let next = if out.len() % 2 == 0 {
                    (out.len() / 2) as int
                } else {
                    costs.len() - 1 - out.len() / 2
                };
                2 + cost_of(costs, out) + costs[next] + 1 > budget
            }
        }),
{
    lemma_truncation(costs, budget, 0, costs.len() as int, 2, true, k);
}

/// What records cost: each its own and one more.
pub proof fn law_cost(costs: Seq<usize>, first: usize, rest: Seq<usize>)
    ensures
        cost_of(costs, Seq::empty()) == 0,
        cost_of(costs, seq![first] + rest) == costs[first as int] + 1 + cost_of(costs, rest),
{
    assert((seq![first] + rest).skip(1) =~= rest);
}

proof fn lemma_truncation(
    costs: Seq<usize>,
    budget: nat,
    lo: int,
    hi: int,
    used: nat,
    front: bool,
    k: int,
)
    requires
        0 <= lo <= hi <= costs.len() <= usize::MAX,
    ensures
        ({
            let out = kept_from(costs, budget, lo, hi, used, front);
            &&& out.len() <= hi - lo
            &&& 0 <= k < out.len() ==> out[k] == (if (k % 2 == 0) == front {
                lo + k / 2
            } else {
                hi - 1 - k / 2
            })
            &&& out.len() < hi - lo ==> {
                let next = if (out.len() % 2 == 0) == front {
                    lo + out.len() / 2
                } else {
                    hi - 1 - out.len() / 2
                };
                used + cost_of(costs, out) + costs[next] + 1 > budget
            }
        }),
    decreases hi - lo,
{
    if lo < hi {
        let at = if front {
            lo
        } else {
            hi - 1
        };
        let now = (used + costs[at] + 1) as nat;
        let out = kept_from(costs, budget, lo, hi, used, front);
        if now <= budget {
            let rest = if front {
                kept_from(costs, budget, lo + 1, hi, now, false)
            } else {
                kept_from(costs, budget, lo, hi - 1, now, true)
            };
            if front {
                lemma_truncation(costs, budget, lo + 1, hi, now, false, k - 1);
            } else {
                lemma_truncation(costs, budget, lo, hi - 1, now, true, k - 1);
            }
            assert(out =~= seq![at as usize] + rest);
            law_cost(costs, at as usize, rest);
            if k > 0 && k < out.len() {
                assert(out[k] == rest[k - 1]);
            }
        } else {
            assert(out =~= Seq::empty());
        }
    }
}

/// How often each phase comes up in a hundred rolls, its name, and how many
/// restarts go with it.
pub proof fn law_phases(roll: nat, draw: u64)
    ensures
        phase_of(roll) == Phase::Running <==> roll < 70,
        phase_of(roll) == Phase::Completed <==> 70 <= roll < 82,
        phase_of(roll) == Phase::Pending <==> 82 <= roll < 91,
        phase_of(roll) == Phase::CrashLoop <==> 91 <= roll < 97,
        phase_of(roll) == Phase::Error <==> 97 <= roll,
        phase_name(Phase::Running) == "Running"@ && phase_name(Phase::Completed) == "Completed"@,
        phase_name(Phase::Pending) == "Pending"@ && phase_name(Phase::CrashLoop)
            == "CrashLoopBackOff"@ && phase_name(Phase::Error) == "Error"@,
        restarts_of(Phase::CrashLoop, draw) == 3 + draw % 28,
        restarts_of(Phase::Error, draw) == 1 + draw % 12,
        restarts_of(Phase::Running, draw) == draw % 3,
        namespace_of(0) == "default"@ && namespace_of(1) == "kube-system"@,
        namespace_of(2) == "prod"@ && namespace_of(3) == "staging"@,
{
}

/// Zeros are put before a numeral up to its width, and nothing is cut off.
pub proof fn law_zero_filled(s: Seq<char>, width: nat)
    ensures
        s.is_suffix_of(zero_filled(s, width)),
        zero_filled(s, width).len() == (if s.len() < width {
            width
        } else {
            s.len()
        }),
        forall|i: int|
            0 <= i < zero_filled(s, width).len() - s.len() ==> #[trigger] zero_filled(
                s,
                width,
            )[i] == '0',
{
    let out = zero_filled(s, width);
    assert(s =~= out.subrange(out.len() - s.len(), out.len() as int));
}

/// What the draws of a record decide: seven of them each, none used twice.
pub proof fn law_record(seed: u64, i: nat, middle: bool)
    ensures
        ({
            let d = |k: nat| drawn(seed, i * 7 + k);
            let phase = if middle {
                Phase::CrashLoop
            } else {
                phase_of((d(0) % 100) as nat)
            };
            let tag = (d(5) % 0x1_0000) as nat;
            record(seed, i, middle) == Tree::Object(
                seq![
                    (
                        "name"@,
                        Tree::Text(
                            "svc-"@ + zero_filled(decimal(i), 5) + "-"@ + hex(
                                seq![(tag / 256) as u8, (tag % 256) as u8],
                            ),
                        ),
                    ),
                    ("namespace"@, Tree::Text(namespace_of((d(4) % 4) as nat))),
                    ("status"@, Tree::Text(phase_name(phase))),
                    (
                        "restarts"@,
                        Tree::Number(
                            decimal(
                                if middle {
                                    99999
                                } else {
                                    restarts_of(phase, d(1))
                                },
                            ),
                        ),
                    ),
                    ("cpu_m"@, Tree::Number(decimal((5 + d(2) % 900) as nat))),
                    ("mem_mib"@, Tree::Number(decimal((16 + d(3) % 2048) as nat))),
                    ("node"@, Tree::Text("node-"@ + zero_filled(decimal((d(6) % 24) as nat), 2))),
                    ("ready"@, Tree::Bool(phase == Phase::Running || phase == Phase::Completed)),
                ],
            )
        }),
        inner_seed(seed) == seed ^ 0x1234_5678_9ABC_DEF0,
{
}

} // verus!
