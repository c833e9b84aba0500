//! The optimal pin clustering solver: pins are collapsed to an ordered set
//! of unique coordinates, and a linear scan over the consecutive gaps finds
//! the minimal accumulated linking cost.

use vstd::prelude::*;
use crate::errors::{Field, SolveError};
use crate::parse::{digits_value, read_safe, spec_parse_u64};
use crate::tokens::{spec_tokens, BufReadSplitter};

verus! {

/// The entries of `s` are pairwise distinct and in increasing order.
pub open spec fn strictly_sorted(s: Seq<u64>) -> bool {
    forall|a: int, b: int| 0 <= a < b < s.len() ==> s[a] < s[b]
}

/// `s` (assumed strictly sorted) with `v` inserted at its place, unchanged
/// where `v` is already present.
pub open spec fn insert_sorted(s: Seq<u64>, v: u64) -> Seq<u64>
    decreases s.len(),
{
    if s.len() == 0 {
        seq![v]
    } else if v < s[0] {
        seq![v] + s
    } else if v == s[0] {
        s
    } else {
        seq![s[0]] + insert_sorted(s.skip(1), v)
    }
}

/// The ordered set of unique values of `s`: every value once, ascending.
pub open spec fn sort_unique(s: Seq<u64>) -> Seq<u64>
    decreases s.len(),
{
    if s.len() == 0 {
        Seq::empty()
    } else {
        insert_sorted(sort_unique(s.drop_last()), s.last())
    }
}

/// Inserting into a strictly sorted sequence keeps it strictly sorted and
/// adds exactly the inserted value to its members.
pub proof fn lemma_insert_sorted_props(s: Seq<u64>, v: u64)
    requires
        strictly_sorted(s),
    ensures
        strictly_sorted(insert_sorted(s, v)),
        forall|x: u64| #[trigger] insert_sorted(s, v).contains(x) <==> (s.contains(x) || x == v),
    decreases s.len(),
{
    let r = insert_sorted(s, v);
    if s.len() == 0 {
        assert forall|x: u64| r.contains(x) implies (s.contains(x) || x == v) by {
            let k = choose|k: int| 0 <= k < r.len() && r[k] == x;
            assert(r[0] == v);
        }
        assert(r.contains(v)) by {
            assert(r[0] == v);
        }
    } else if v < s[0] {
        assert(r == seq![v] + s);
        assert forall|a: int, b: int| 0 <= a < b < r.len() implies r[a] < r[b] by {
            if a == 0 {
                assert(r[b] == s[b - 1]);
                if b > 1 {
                    assert(s[0] < s[b - 1]);
                }
            } else {
                assert(r[a] == s[a - 1] && r[b] == s[b - 1]);
            }
        }
        assert forall|x: u64| r.contains(x) implies (s.contains(x) || x == v) by {
            let k = choose|k: int| 0 <= k < r.len() && r[k] == x;
            if k > 0 {
                assert(s[k - 1] == x);
            }
        }
        assert forall|x: u64| (s.contains(x) || x == v) implies r.contains(x) by {
            if x == v {
                assert(r[0] == v);
            } else {
                let k = choose|k: int| 0 <= k < s.len() && s[k] == x;
                assert(r[k + 1] == x);
            }
        }
    } else if v == s[0] {
        assert forall|x: u64| (s.contains(x) || x == v) implies r.contains(x) by {
            if x == v {
                assert(r[0] == v);
            }
        }
    } else {
        let t = s.skip(1);
        assert(strictly_sorted(t)) by {
            assert forall|a: int, b: int| 0 <= a < b < t.len() implies t[a] < t[b] by {
                assert(t[a] == s[a + 1] && t[b] == s[b + 1]);
            }
        }
        lemma_insert_sorted_props(t, v);
        let u = insert_sorted(t, v);
        assert(r == seq![s[0]] + u);
        // Every member of `u` exceeds `s[0]`.
        assert forall|k: int| 0 <= k < u.len() implies s[0] < u[k] by {
            assert(u.contains(u[k]));
            if u[k] == v {
            } else {
                assert(t.contains(u[k]));
                let q = choose|q: int| 0 <= q < t.len() && t[q] == u[k];
                assert(t[q] == s[q + 1]);
                assert(s[0] < s[q + 1]);
            }
        }
        assert forall|a: int, b: int| 0 <= a < b < r.len() implies r[a] < r[b] by {
            if a == 0 {
                assert(r[b] == u[b - 1]);
            } else {
                assert(r[a] == u[a - 1] && r[b] == u[b - 1]);
                assert(strictly_sorted(u));
            }
        }
        assert forall|x: u64| r.contains(x) implies (s.contains(x) || x == v) by {
            let k = choose|k: int| 0 <= k < r.len() && r[k] == x;
            if k == 0 {
                assert(s[0] == x);
            } else {
                assert(u[k - 1] == x);
                assert(u.contains(x));
                if t.contains(x) {
                    let q = choose|q: int| 0 <= q < t.len() && t[q] == x;
                    assert(s[q + 1] == x);
                }
            }
        }
        assert forall|x: u64| (s.contains(x) || x == v) implies r.contains(x) by {
            if x == v {
                assert(u.contains(v));
                let q = choose|q: int| 0 <= q < u.len() && u[q] == v;
                assert(r[q + 1] == v);
            } else {
                let k = choose|k: int| 0 <= k < s.len() && s[k] == x;
                if k == 0 {
                    assert(r[0] == x);
                } else {
                    assert(t[k - 1] == x);
                    assert(t.contains(x));
                    assert(u.contains(x));
                    let q = choose|q: int| 0 <= q < u.len() && u[q] == x;
                    assert(r[q + 1] == x);
                }
            }
        }
    }
}

/// The ordered unique conversion is strictly sorted and keeps exactly the
/// members of its input: duplicates collapse, nothing else changes.
pub proof fn lemma_sort_unique_props(s: Seq<u64>)
    ensures
        strictly_sorted(sort_unique(s)),
        forall|x: u64| #[trigger] sort_unique(s).contains(x) <==> s.contains(x),
    decreases s.len(),
{
    if s.len() == 0 {
    } else {
        let d = s.drop_last();
        lemma_sort_unique_props(d);
        lemma_insert_sorted_props(sort_unique(d), s.last());
        assert forall|x: u64| sort_unique(s).contains(x) implies s.contains(x) by {
            if d.contains(x) {
                let k = choose|k: int| 0 <= k < d.len() && d[k] == x;
                assert(s[k] == x);
            } else {
                assert(x == s.last());
                assert(s[s.len() - 1] == x);
            }
        }
        assert forall|x: u64| s.contains(x) implies sort_unique(s).contains(x) by {
            let k = choose|k: int| 0 <= k < s.len() && s[k] == x;
            if k < s.len() - 1 {
                assert(d[k] == x);
                assert(d.contains(x));
            }
        }
    }
}

/// Positional form of `insert_sorted`: at the first index whose entry is not
/// below `v`, either the entry equals `v` (no change) or `v` goes in there.
proof fn lemma_insert_sorted_at(s: Seq<u64>, v: u64, pos: int)
    requires
        strictly_sorted(s),
        0 <= pos <= s.len(),
        forall|k: int| 0 <= k < pos ==> s[k] < v,
        pos < s.len() ==> v <= s[pos],
    ensures
        pos < s.len() && s[pos] == v ==> insert_sorted(s, v) == s,
        !(pos < s.len() && s[pos] == v)
            ==> insert_sorted(s, v) == s.take(pos) + seq![v] + s.skip(pos),
    decreases pos,
{
    if pos == 0 {
        if s.len() == 0 {
            assert(insert_sorted(s, v) =~= s.take(0) + seq![v] + s.skip(0));
        } else if v < s[0] {
            assert(insert_sorted(s, v) =~= s.take(0) + seq![v] + s.skip(0));
        }
    } else {
        assert(s[0] < v);
        let t = s.skip(1);
        assert(strictly_sorted(t)) by {
            assert forall|a: int, b: int| 0 <= a < b < t.len() implies t[a] < t[b] by {
                assert(t[a] == s[a + 1] && t[b] == s[b + 1]);
            }
        }
        assert forall|k: int| 0 <= k < pos - 1 implies t[k] < v by {
            assert(t[k] == s[k + 1]);
        }
        if pos - 1 < t.len() {
            assert(t[pos - 1] == s[pos as int]);
        }
        lemma_insert_sorted_at(t, v, pos - 1);
        if pos < s.len() && s[pos as int] == v {
            assert(insert_sorted(s, v) == seq![s[0]] + insert_sorted(t, v));
            assert(seq![s[0]] + t =~= s);
        } else {
            assert(insert_sorted(s, v)
                =~= s.take(pos) + seq![v] + s.skip(pos)) by {
                assert(insert_sorted(t, v) == t.take(pos - 1) + seq![v] + t.skip(pos - 1));
                assert(insert_sorted(s, v) == seq![s[0]] + insert_sorted(t, v));
                assert forall|k: int| 0 <= k < pos implies (s.take(pos))[k] == s[k] by {}
            }
        }
    }
}

/// Inserts `v` into a strictly sorted vector, skipping it where present.
fn insert_unique_sorted(out: &mut Vec<u64>, v: u64)
    requires
        strictly_sorted(old(out)@),
    ensures
        final(out)@ == insert_sorted(old(out)@, v),
        strictly_sorted(final(out)@),
{
    proof {
        lemma_insert_sorted_props(old(out)@, v);
    }
    let n = out.len();
    let mut pos: usize = 0;
    while pos < n && out[pos] < v
        invariant
            0 <= pos <= n,
            n == out@.len(),
            out == old(out),
            forall|k: int| 0 <= k < pos ==> out@[k] < v,
        decreases n - pos,
    {
        pos += 1;
    }
    proof {
        lemma_insert_sorted_at(out@, v, pos as int);
    }
    if pos < n && out[pos] == v {
        return;
    }
    out.insert(pos, v);
    assert(out@ =~= old(out)@.take(pos as int) + seq![v] + old(out)@.skip(pos as int));
}

/// The ordered set of unique values of a vector, ascending.
pub fn sorted_unique(values: &Vec<u64>) -> (r: Vec<u64>)
    ensures
        r@ == sort_unique(values@),
        strictly_sorted(r@),
{
    let mut out: Vec<u64> = Vec::new();
    let n = values.len();
    let mut k: usize = 0;
    while k < n
        invariant
            0 <= k <= n,
            n == values@.len(),
            out@ == sort_unique(values@.take(k as int)),
            strictly_sorted(out@),
        decreases n - k,
    {
        insert_unique_sorted(&mut out, values[k]);
        k += 1;
        proof {
            let p = values@.take(k as int);
            assert(p.drop_last() =~= values@.take(k - 1));
            assert(p.last() == values@[k - 1]);
        }
    }
    assert(values@.take(n as int) =~= values@);
    out
}

/// The distance between pins `k` and `k + 1` of an ascending pin sequence.
pub open spec fn gap(pins: Seq<u64>, k: int) -> int {
    pins[k + 1] - pins[k]
}

/// The minimal accumulated linking cost over the first `k + 1` gaps: each
/// gap is paid on top of the cheaper of the two preceding states.
pub open spec fn pin_dp(pins: Seq<u64>, k: int) -> int
    decreases (if k > 0 { k } else { 0 }),
{
    if k <= 0 {
        gap(pins, 0)
    } else if k == 1 {
        gap(pins, 0) + gap(pins, 1)
    } else {
        gap(pins, k) + vstd::math::min(pin_dp(pins, k - 1), pin_dp(pins, k - 2))
    }
}

/// The clustering cost over the first gaps is bracketed by the distance from
/// the first pin to the pin after the last counted gap.
pub proof fn lemma_pin_dp_bounds(pins: Seq<u64>, k: int)
    requires
        strictly_sorted(pins),
        0 <= k,
        k + 1 < pins.len(),
    ensures
        0 <= pin_dp(pins, k) <= pins[k + 1] - pins[0],
    decreases k,
{
    if k == 0 {
        assert(pins[0] < pins[1]);
    } else if k == 1 {
        assert(pins[0] < pins[1] && pins[1] < pins[2]);
    } else {
        lemma_pin_dp_bounds(pins, k - 1);
        lemma_pin_dp_bounds(pins, k - 2);
        assert(pins[k] < pins[k + 1]);
    }
}

/// The minimal linking cost of a strictly ascending pin sequence, or nothing
/// where fewer than two distinct pins exist.
pub fn calculate_shortest_pin_path(pins: &Vec<u64>) -> (r: Option<u64>)
    requires
        strictly_sorted(pins@),
    ensures
        pins@.len() < 2 ==> r is None,
        pins@.len() >= 2 ==> r == Some((pin_dp(pins@, pins@.len() - 2) as u64)),
{
    let n = pins.len();
    if n < 2 {
        return None;
    }
    assert(pins@[0] < pins@[1]);
    let mut prev: u64 = u64::MAX;
    let mut current: u64 = pins[1] - pins[0];
    let mut g: usize = 1;
    while g < n - 1
        invariant
            1 <= g <= n - 1,
            n == pins@.len(),
            2 <= n,
            strictly_sorted(pins@),
            current as int == pin_dp(pins@, g - 1),
            g >= 2 ==> prev as int == pin_dp(pins@, g - 2),
            g == 1 ==> prev == u64::MAX,
        decreases n - g,
    {
        assert(pins@[g as int] < pins@[g + 1]);
        let d = pins[g + 1] - pins[g];
        let m = if prev <= current {
            prev
        } else {
            current
        };
        proof {
            lemma_pin_dp_bounds(pins@, g as int);
            lemma_pin_dp_bounds(pins@, g - 1);
            if g == 1 {
                assert(m == current);
                assert(m as int + d as int == pin_dp(pins@, 1));
            } else {
                lemma_pin_dp_bounds(pins@, g - 2);
                assert(m as int == vstd::math::min(pin_dp(pins@, g - 1), pin_dp(pins@, g - 2)));
                assert(m as int + d as int == pin_dp(pins@, g as int));
            }
            assert(pin_dp(pins@, g as int) <= pins@[g + 1] - pins@[0] <= u64::MAX);
        }
        let next = m + d;
        prev = current;
        current = next;
        g += 1;
    }
    Some(current)
}

/// The pin coordinates the tokens denote: token `1 + k` read as the `k`-th
/// pin, for the first `m` pins.
pub open spec fn spec_pin_values(toks: Seq<Seq<u8>>, m: int) -> Seq<u64> {
    Seq::new(m as nat, |k: int| (digits_value(toks[1 + k]) as u64))
}

/// What the whole pin clustering run returns for a raw byte input: a count,
/// then up to that many pin tokens (a shorter stream is not an error), the
/// ordered unique conversion, and the minimal linking cost; fewer than two
/// distinct pins admit no answer.
pub open spec fn spec_solve_pins(input: Seq<u8>) -> Result<u64, SolveError> {
    let toks = spec_tokens(input);
    if toks.len() < 1 {
        Err(SolveError::EndOfInput(Field::PinCount))
    } else if spec_parse_u64(toks[0]) is None {
        Err(SolveError::Malformed(Field::PinCount))
    } else {
        let n = digits_value(toks[0]);
        let avail = toks.len() - 1;
        let m = if n <= avail { n } else { avail };
        if exists|k: int| 0 <= k < m && #[trigger] spec_parse_u64(toks[1 + k]) is None {
            Err(SolveError::Malformed(Field::Pin))
        } else {
            let pins = sort_unique(spec_pin_values(toks, m));
            if pins.len() < 2 {
                Err(SolveError::NoSolution)
            } else {
                Ok(pin_dp(pins, pins.len() - 2) as u64)
            }
        }
    }
}

/// Runs the pin clustering solver over a raw byte input: a count token, the
/// pin tokens, the ordered unique conversion and the gap scan.
#[verifier::loop_isolation(false)]
pub fn solve_pins(input: &[u8]) -> (r: Result<u64, SolveError>)
    ensures
        r == spec_solve_pins(input@),
{
    let ghost toks = spec_tokens(input@);
    let mut sp = BufReadSplitter::new();
    sp.feed(input);
    assert(sp@ =~= input@);
    let n = match read_safe(&mut sp, Field::PinCount) {
        Ok(v) => v,
        Err(e) => {
            return Err(e);
        },
    };
    proof {
        crate::parse::lemma_digits_value_nonneg(toks[0]);
    }
    assert(n as int == digits_value(toks[0]));
    let mut raw: Vec<u64> = Vec::new();
    let mut exhausted = false;
    let mut k: usize = 0;
    while !exhausted && (k as u64) < n
        invariant
            k == raw@.len(),
            k as u64 <= n,
            1 + k <= toks.len(),
            spec_tokens(sp@) == toks.skip(1 + k as int),
            forall|q: int| 0 <= q < k
                ==> #[trigger] spec_parse_u64(toks[1 + q]) == Some(raw@[q]),
            exhausted ==> toks.len() == 1 + k,
        decreases n - k as u64 + (if exhausted { 0int } else { 1int }),
    {
        match sp.next() {
            None => {
                assert(toks.skip(1 + k as int).len() == 0);
                exhausted = true;
            },
            Some(t) => {
                match crate::parse::parse_u64(t.as_slice()) {
                    Some(v) => {
                        assert(toks.skip(1 + k as int)[0] == t@);
                        raw.push(v);
                        proof {
                            assert(toks.skip(1 + k as int).skip(1)
                                =~= toks.skip(1 + (k + 1)));
                        }
                        k = raw.len();
                    },
                    None => {
                        proof {
                            let avail = toks.len() - 1;
                            let m: int = if n <= avail { n as int } else { avail };
                            assert(toks.skip(1 + k as int)[0] == t@);
                            assert(spec_parse_u64(toks[1 + k as int]) is None);
                            assert(toks.skip(1 + k as int).len() > 0);
                            assert(k < avail && k < n);
                            assert(0 <= k < m && spec_parse_u64(toks[1 + k as int]) is None);
                            assert(exists|q: int|
                                0 <= q < m && #[trigger] spec_parse_u64(toks[1 + q]) is None);
                        }
                        return Err(SolveError::Malformed(Field::Pin));
                    },
                }
            },
        }
    }
    proof {
        let avail = toks.len() - 1;
        let m: int = if n <= avail { n as int } else { avail };
        assert(m == k as int);
        assert forall|q: int| 0 <= q < m
            implies !(#[trigger] spec_parse_u64(toks[1 + q]) is None) by {
            assert(spec_parse_u64(toks[1 + q]) == Some(raw@[q]));
        }
        assert forall|q: int| 0 <= q < m
            implies spec_pin_values(toks, m)[q] == raw@[q] by {
            assert(spec_parse_u64(toks[1 + q]) == Some(raw@[q]));
        }
        assert(spec_pin_values(toks, m) =~= raw@);
    }
    let pins = sorted_unique(&raw);
    if pins.len() < 2 {
        return Err(SolveError::NoSolution);
    }
    // At least two distinct pins remained, so a cost exists.
    Ok(calculate_shortest_pin_path(&pins).unwrap())
}

/// The pin clustering run is a pure function of its token sequence: two
/// inputs with the same tokens get the same result.
pub proof fn lemma_pins_tokens_only(a: Seq<u8>, b: Seq<u8>)
    requires
        spec_tokens(a) == spec_tokens(b),
    ensures
        spec_solve_pins(a) == spec_solve_pins(b),
{
}

} // verus!
