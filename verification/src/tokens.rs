//! The token stream: a pending buffer of bytes from which maximal runs of
//! non-whitespace bytes are handed out, left to right, with whitespace runs
//! acting as separators. Lines are fed in by the caller; how tokens are
//! distributed across fed lines is invisible to token consumers.

use vstd::prelude::*;

verus! {

/// Whether a byte is a whitespace separator: space, tab, line feed,
/// vertical tab, form feed or carriage return.
pub open spec fn is_ws(b: u8) -> bool {
    b == 32 || b == 9 || b == 10 || b == 11 || b == 12 || b == 13
}

/// Every byte of `s` is whitespace.
pub open spec fn all_ws(s: Seq<u8>) -> bool {
    forall|k: int| 0 <= k < s.len() ==> is_ws(s[k])
}

/// No byte of `s` is whitespace.
pub open spec fn no_ws(s: Seq<u8>) -> bool {
    forall|k: int| 0 <= k < s.len() ==> !is_ws(s[k])
}

/// Length of the leading run of non-whitespace bytes.
pub open spec fn token_len(s: Seq<u8>) -> nat
    decreases s.len(),
{
    if s.len() == 0 || is_ws(s[0]) {
        0
    } else {
        1 + token_len(s.skip(1))
    }
}

pub proof fn lemma_token_len_le(s: Seq<u8>)
    ensures
        token_len(s) <= s.len(),
    decreases s.len(),
{
    if s.len() > 0 && !is_ws(s[0]) {
        lemma_token_len_le(s.skip(1));
    }
}

/// The sequence of whitespace-delimited tokens of `s`, in order.
pub open spec fn spec_tokens(s: Seq<u8>) -> Seq<Seq<u8>>
    decreases s.len(),
    via spec_tokens_decreases
{
    if s.len() == 0 {
        Seq::empty()
    } else if is_ws(s[0]) {
        spec_tokens(s.skip(1))
    } else {
        seq![s.take(token_len(s) as int)] + spec_tokens(s.skip(token_len(s) as int))
    }
}

#[via_fn]
proof fn spec_tokens_decreases(s: Seq<u8>) {
    lemma_token_len_le(s);
}

/// The bytes of the leading token are all non-whitespace.
pub proof fn lemma_token_prefix_no_ws(s: Seq<u8>)
    ensures
        forall|k: int| 0 <= k < token_len(s) ==> !is_ws(s[k]),
    decreases s.len(),
{
    if s.len() > 0 && !is_ws(s[0]) {
        lemma_token_len_le(s);
        lemma_token_len_le(s.skip(1));
        lemma_token_prefix_no_ws(s.skip(1));
        assert forall|k: int| 0 <= k < token_len(s) implies !is_ws(s[k]) by {
            if k > 0 {
                assert(s.skip(1)[k - 1] == s[k]);
            }
        }
    }
}

/// Where a run of `j` non-whitespace bytes is followed by whitespace or by
/// the end, the leading token has length exactly `j`.
pub proof fn lemma_token_len_at(s: Seq<u8>, j: int)
    requires
        0 <= j <= s.len(),
        forall|k: int| 0 <= k < j ==> !is_ws(s[k]),
        j == s.len() || is_ws(s[j]),
    ensures
        token_len(s) == j,
    decreases j,
{
    if j == 0 {
    } else {
        assert(!is_ws(s[0]));
        let t = s.skip(1);
        assert forall|k: int| 0 <= k < j - 1 implies !is_ws(t[k]) by {
            assert(t[k] == s[k + 1]);
        }
        if j - 1 < t.len() {
            assert(t[j - 1] == s[j]);
        }
        lemma_token_len_at(t, j - 1);
    }
}

/// Dropping a leading whitespace run leaves the tokens unchanged.
pub proof fn lemma_tokens_skip_ws(s: Seq<u8>, i: int)
    requires
        0 <= i <= s.len(),
        forall|k: int| 0 <= k < i ==> is_ws(s[k]),
    ensures
        spec_tokens(s) == spec_tokens(s.skip(i)),
    decreases i,
{
    if i == 0 {
        assert(s.skip(0) =~= s);
    } else {
        assert(is_ws(s[0]));
        let t = s.skip(1);
        assert forall|k: int| 0 <= k < i - 1 implies is_ws(t[k]) by {
            assert(t[k] == s[k + 1]);
        }
        lemma_tokens_skip_ws(t, i - 1);
        assert(t.skip(i - 1) =~= s.skip(i));
    }
}

/// An input of only whitespace (the empty input included) has no tokens.
pub proof fn lemma_tokens_all_ws(s: Seq<u8>)
    requires
        all_ws(s),
    ensures
        spec_tokens(s) =~= Seq::<Seq<u8>>::empty(),
{
    lemma_tokens_skip_ws(s, s.len() as int);
    assert(s.skip(s.len() as int) =~= Seq::<u8>::empty());
}

/// Every emitted token is non-empty and free of whitespace.
pub proof fn lemma_tokens_wellformed(s: Seq<u8>)
    ensures
        forall|q: int| 0 <= q < spec_tokens(s).len()
            ==> spec_tokens(s)[q].len() > 0 && no_ws(#[trigger] spec_tokens(s)[q]),
    decreases s.len(),
{
    lemma_token_len_le(s);
    if s.len() == 0 {
    } else if is_ws(s[0]) {
        lemma_tokens_wellformed(s.skip(1));
        assert(spec_tokens(s) == spec_tokens(s.skip(1)));
        assert forall|q: int| 0 <= q < spec_tokens(s).len()
            implies spec_tokens(s)[q].len() > 0 && no_ws(#[trigger] spec_tokens(s)[q]) by {
            assert(spec_tokens(s)[q] == spec_tokens(s.skip(1))[q]);
        }
    } else {
        let n = token_len(s) as int;
        let head = s.take(n);
        lemma_token_prefix_no_ws(s);
        assert(no_ws(head));
        assert(head.len() > 0);
        lemma_tokens_wellformed(s.skip(n));
        assert forall|q: int| 0 <= q < spec_tokens(s).len()
            implies spec_tokens(s)[q].len() > 0 && no_ws(#[trigger] spec_tokens(s)[q]) by {
            if q == 0 {
                assert(spec_tokens(s)[0] == head);
            } else {
                assert(spec_tokens(s)[q] == spec_tokens(s.skip(n))[q - 1]);
            }
        }
    }
}

/// Whether a byte is a whitespace separator (executable form of `is_ws`).
pub fn is_ws_byte(b: u8) -> (r: bool)
    ensures
        r == is_ws(b),
{
    b == 32 || b == 9 || b == 10 || b == 11 || b == 12 || b == 13
}

/// A pull-based token cursor over a pending buffer of bytes. The caller feeds
/// it the lines (or any chunks) of the byte source; `next` hands out the
/// buffered tokens eagerly, left to right. The view is the pending buffer.
pub struct BufReadSplitter {
    buff: Vec<u8>,
}

impl View for BufReadSplitter {
    type V = Seq<u8>;

    closed spec fn view(&self) -> Seq<u8> {
        self.buff@
    }
}

impl BufReadSplitter {
    /// A splitter with an empty pending buffer: no tokens yet.
    pub fn new() -> (r: Self)
        ensures
            r@ =~= Seq::<u8>::empty(),
    {
        BufReadSplitter { buff: Vec::new() }
    }

    /// Appends a chunk of the byte source to the pending buffer.
    pub fn feed(&mut self, line: &[u8])
        ensures
            final(self)@ == old(self)@ + line@,
    {
        let n = line.len();
        let mut k: usize = 0;
        while k < n
            invariant
                0 <= k <= n,
                n == line@.len(),
                self.buff@ == old(self).buff@ + line@.take(k as int),
            decreases n - k,
        {
            self.buff.push(line[k]);
            k += 1;
            assert(old(self).buff@ + line@.take(k as int)
                =~= (old(self).buff@ + line@.take(k - 1)).push(line@[k - 1]));
        }
        assert(line@.take(n as int) =~= line@);
    }

    /// Removes and returns the first pending token, or returns `None` and
    /// leaves the buffer empty when only whitespace (or nothing) is pending.
    pub fn next(&mut self) -> (r: Option<Vec<u8>>)
        ensures
            match r {
                Some(t) => spec_tokens(old(self)@) == seq![t@] + spec_tokens(final(self)@)
                    && t@.len() > 0 && no_ws(t@),
                None => spec_tokens(old(self)@) =~= Seq::<Seq<u8>>::empty()
                    && final(self)@.len() == 0,
            },
    {
        let n = self.buff.len();
        let mut i: usize = 0;
        while i < n && is_ws_byte(self.buff[i])
            invariant
                0 <= i <= n,
                n == self.buff@.len(),
                self == old(self),
                forall|k: int| 0 <= k < i ==> is_ws(self.buff@[k]),
            decreases n - i,
        {
            i += 1;
        }
        if i == n {
            proof {
                lemma_tokens_skip_ws(self.buff@, n as int);
                assert(self.buff@.skip(n as int) =~= Seq::<u8>::empty());
            }
            self.buff = Vec::new();
            return None;
        }
        let mut j: usize = i;
        while j < n && !is_ws_byte(self.buff[j])
            invariant
                i <= j <= n,
                n == self.buff@.len(),
                self == old(self),
                forall|k: int| i <= k < j ==> !is_ws(self.buff@[k]),
            decreases n - j,
        {
            j += 1;
        }
        let mut tok: Vec<u8> = Vec::new();
        let mut k: usize = i;
        while k < j
            invariant
                i <= k <= j <= n,
                n == self.buff@.len(),
                self == old(self),
                tok@ == self.buff@.subrange(i as int, k as int),
            decreases j - k,
        {
            tok.push(self.buff[k]);
            k += 1;
            assert(self.buff@.subrange(i as int, k as int)
                =~= self.buff@.subrange(i as int, k - 1).push(self.buff@[k - 1]));
        }
        let mut rem: Vec<u8> = Vec::new();
        let mut k2: usize = j;
        while k2 < n
            invariant
                j <= k2 <= n,
                n == self.buff@.len(),
                self == old(self),
                rem@ == self.buff@.subrange(j as int, k2 as int),
            decreases n - k2,
        {
            rem.push(self.buff[k2]);
            k2 += 1;
            assert(self.buff@.subrange(j as int, k2 as int)
                =~= self.buff@.subrange(j as int, k2 - 1).push(self.buff@[k2 - 1]));
        }
        proof {
            let s = self.buff@;
            lemma_tokens_skip_ws(s, i as int);
            let u = s.skip(i as int);
            assert forall|q: int| 0 <= q < j - i implies !is_ws(u[q]) by {
                assert(u[q] == s[q + i]);
            }
            if j < n {
                assert(u[j - i] == s[j as int]);
                assert(is_ws(u[j - i]));
            }
            lemma_token_len_at(u, j - i);
            assert(u.take(j - i) =~= s.subrange(i as int, j as int));
            assert(u.skip(j - i) =~= s.subrange(j as int, n as int));
            assert(!is_ws(u[0]));
            assert(spec_tokens(u) == seq![u.take(j - i)] + spec_tokens(u.skip(j - i)));
            assert(tok@ == u.take(j - i));
            assert(tok@.len() > 0);
        }
        self.buff = rem;
        Some(tok)
    }
}

/// All tokens of a complete in-memory input, in order.
pub fn tokenize_all(input: &[u8]) -> (r: Vec<Vec<u8>>)
    ensures
        r.deep_view() == spec_tokens(input@),
{
    let mut sp = BufReadSplitter::new();
    sp.feed(input);
    assert(sp@ =~= input@);
    let mut out: Vec<Vec<u8>> = Vec::new();
    loop
        invariant
            spec_tokens(input@) =~~= out.deep_view() + spec_tokens(sp@),
        decreases spec_tokens(sp@).len(),
    {
        let ghost prev = out.deep_view();
        match sp.next() {
            Some(t) => {
                out.push(t);
                assert(out.deep_view() =~~= prev.push(t@));
            },
            None => {
                assert(spec_tokens(input@) =~~= out.deep_view());
                return out;
            },
        }
    }
}

/// The interleaving `seps[0] + parts[0] + seps[1] + parts[1] + ... + seps[n]`,
/// with one more separator than parts.
pub open spec fn joined(seps: Seq<Seq<u8>>, parts: Seq<Seq<u8>>) -> Seq<u8>
    decreases parts.len(),
{
    if parts.len() == 0 {
        if seps.len() == 0 {
            Seq::empty()
        } else {
            seps[0]
        }
    } else {
        seps[0] + parts[0] + joined(seps.skip(1), parts.skip(1))
    }
}

/// For any input composed of non-empty whitespace-free parts, separated by
/// whitespace runs that are non-empty between two parts (and arbitrary,
/// possibly empty, at either end), the token stream is exactly those parts,
/// in their original order.
pub proof fn lemma_tokens_of_joined(seps: Seq<Seq<u8>>, parts: Seq<Seq<u8>>)
    requires
        seps.len() == parts.len() + 1,
        forall|k: int| 0 <= k < seps.len() ==> all_ws(#[trigger] seps[k]),
        forall|k: int| 0 <= k < parts.len()
            ==> parts[k].len() > 0 && no_ws(#[trigger] parts[k]),
        forall|k: int| 1 <= k < parts.len() ==> #[trigger] seps[k].len() > 0,
    ensures
        spec_tokens(joined(seps, parts)) == parts,
    decreases parts.len(),
{
    if parts.len() == 0 {
        lemma_tokens_all_ws(joined(seps, parts));
        assert(spec_tokens(joined(seps, parts)) =~= parts);
    } else {
        let sep0 = seps[0];
        let head = parts[0];
        let rest = joined(seps.skip(1), parts.skip(1));
        let s = sep0 + head + rest;
        assert(joined(seps, parts) == s);
        // Skip the leading whitespace run.
        assert forall|k: int| 0 <= k < sep0.len() implies is_ws(s[k]) by {
            assert(s[k] == sep0[k]);
        }
        lemma_tokens_skip_ws(s, sep0.len() as int);
        let u = s.skip(sep0.len() as int);
        assert(u =~= head + rest);
        // The leading token of `head + rest` is exactly `head`.
        assert forall|k: int| 0 <= k < head.len() implies !is_ws(u[k]) by {
            assert(u[k] == head[k]);
        }
        if head.len() < u.len() {
            // `rest` starts with `seps[1]`, which is whitespace and, with more
            // parts to come, non-empty; with no parts left `rest` is all
            // whitespace, so its first byte is whitespace either way.
            assert(u[head.len() as int] == rest[0]);
            if parts.len() > 1 {
                assert(seps.skip(1)[0] == seps[1]);
                assert(parts.skip(1)[0] == parts[1]);
                assert(rest[0] == seps[1][0]);
            } else {
                assert(parts.skip(1).len() == 0);
                assert(rest == seps.skip(1)[0]);
                assert(seps.skip(1)[0] == seps[1]);
                assert(is_ws(rest[0]));
            }
        }
        lemma_token_len_at(u, head.len() as int);
        assert(!is_ws(u[0]));
        assert(spec_tokens(u)
            == seq![u.take(head.len() as int)] + spec_tokens(u.skip(head.len() as int)));
        assert(u.take(head.len() as int) =~= head);
        assert(u.skip(head.len() as int) =~= rest);
        assert forall|k: int| 1 <= k < parts.skip(1).len()
            implies #[trigger] seps.skip(1)[k].len() > 0 by {
            assert(seps.skip(1)[k] == seps[k + 1]);
        }
        lemma_tokens_of_joined(seps.skip(1), parts.skip(1));
        assert(spec_tokens(s) =~= seq![head] + parts.skip(1));
        assert(seq![head] + parts.skip(1) =~= parts);
    }
}

} // verus!
