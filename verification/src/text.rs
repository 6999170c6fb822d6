//! Character-level string operations on which key handling rests: splitting
//! on a delimiter, joining segments back together, and stripping a marker
//! prefix. Everything here is defined over `Seq<char>` views and proved.
use vstd::prelude::*;

verus! {

/// The segments of `s` split on the empty delimiter: an empty segment, then
/// each character as a segment of its own, then an empty segment, matching
/// `str::split` with an empty pattern.
pub open spec fn split_empty_delim(s: Seq<char>) -> Seq<Seq<char>> {
    seq![Seq::<char>::empty()] + Seq::new(s.len(), |i: int| seq![s[i]]) + seq![
        Seq::<char>::empty(),
    ]
}

/// The segments of `s` split on the delimiter `d`: the pieces between
/// non-overlapping leftmost occurrences of `d`, in order. A string with no
/// occurrence is a single segment; adjacent occurrences yield empty segments.
pub open spec fn split_on(s: Seq<char>, d: Seq<char>) -> Seq<Seq<char>>
    decreases s.len(),
{
    if d.len() == 0 {
        split_empty_delim(s)
    } else if d.is_prefix_of(s) {
        seq![Seq::<char>::empty()] + split_on(s.skip(d.len() as int), d)
    } else if s.len() == 0 {
        seq![s]
    } else {
        let rest = split_on(s.drop_first(), d);
        rest.update(0, seq![s[0]] + rest[0])
    }
}

/// The segments of `parts` joined with the delimiter `d` between neighbours.
pub open spec fn join_with(parts: Seq<Seq<char>>, d: Seq<char>) -> Seq<char>
    decreases parts.len(),
{
    if parts.len() == 0 {
        Seq::<char>::empty()
    } else if parts.len() == 1 {
        parts[0]
    } else {
        parts[0] + d + join_with(parts.drop_first(), d)
    }
}

/// `s` with the prefix `p` removed where it is present, `s` itself otherwise.
pub open spec fn strip_prefix_spec(s: Seq<char>, p: Seq<char>) -> Seq<char> {
    if p.is_prefix_of(s) {
        s.skip(p.len() as int)
    } else {
        s
    }
}

/// Splitting never yields an empty segment list: even the empty string is one
/// (empty) segment.
pub proof fn lemma_split_on_nonempty(s: Seq<char>, d: Seq<char>)
    ensures
        split_on(s, d).len() >= 1,
    decreases s.len(),
{
    if d.len() == 0 {
    } else if d.is_prefix_of(s) {
        lemma_split_on_nonempty(s.skip(d.len() as int), d);
    } else if s.len() == 0 {
    } else {
        lemma_split_on_nonempty(s.drop_first(), d);
    }
}

/// Prepending a character to the first segment prepends it to the join.
proof fn lemma_join_prepend_first(parts: Seq<Seq<char>>, d: Seq<char>, c: char)
    requires
        parts.len() >= 1,
    ensures
        join_with(parts.update(0, seq![c] + parts[0]), d) == seq![c] + join_with(parts, d),
{
    let up = parts.update(0, seq![c] + parts[0]);
    if parts.len() == 1 {
        assert(join_with(up, d) =~= seq![c] + join_with(parts, d));
    } else {
        assert(up.drop_first() =~= parts.drop_first());
        assert(join_with(up, d) =~= seq![c] + join_with(parts, d));
    }
}

/// Joining the per-character segments of the empty-delimiter split (without
/// the leading empty segment) with the empty delimiter gives back `s`.
proof fn lemma_join_chars(s: Seq<char>)
    ensures
        join_with(Seq::new(s.len(), |i: int| seq![s[i]]) + seq![Seq::<char>::empty()], Seq::empty())
            == s,
    decreases s.len(),
{
    let mid = Seq::new(s.len(), |i: int| seq![s[i]]);
    let parts = mid + seq![Seq::<char>::empty()];
    if s.len() == 0 {
        assert(join_with(parts, Seq::empty()) =~= s);
    } else {
        let tail = s.drop_first();
        lemma_join_chars(tail);
        let tail_parts = Seq::new(tail.len(), |i: int| seq![tail[i]]) + seq![
            Seq::<char>::empty(),
        ];
        assert(parts.drop_first() =~= tail_parts);
        assert(parts[0] =~= seq![s[0]]);
        assert(join_with(parts, Seq::empty()) =~= seq![s[0]] + tail);
        assert(seq![s[0]] + tail =~= s);
    }
}

/// Splitting a string on a delimiter and joining the segments with the same
/// delimiter reproduces the string, for every string and every delimiter.
pub proof fn lemma_split_join_round_trip(s: Seq<char>, d: Seq<char>)
    ensures
        join_with(split_on(s, d), d) == s,
    decreases s.len(),
{
    if d.len() == 0 {
        let mid = Seq::new(s.len(), |i: int| seq![s[i]]);
        let tail_parts = mid + seq![Seq::<char>::empty()];
        lemma_join_chars(s);
        assert(split_empty_delim(s).drop_first() =~= tail_parts);
        assert(split_empty_delim(s).len() >= 2);
        assert(join_with(split_on(s, d), d) =~= s);
    } else if d.is_prefix_of(s) {
        let rest = s.skip(d.len() as int);
        lemma_split_join_round_trip(rest, d);
        lemma_split_on_nonempty(rest, d);
        let parts = seq![Seq::<char>::empty()] + split_on(rest, d);
        assert(parts.drop_first() =~= split_on(rest, d));
        assert(join_with(parts, d) =~= d + join_with(split_on(rest, d), d));
        assert(d + rest =~= s);
    } else if s.len() == 0 {
    } else {
        let tail = s.drop_first();
        lemma_split_join_round_trip(tail, d);
        lemma_split_on_nonempty(tail, d);
        lemma_join_prepend_first(split_on(tail, d), d, s[0]);
        assert(seq![s[0]] + tail =~= s);
    }
}

/// Whether `d` occurs in `s` at character position `i`.
pub open spec fn match_at(s: Seq<char>, d: Seq<char>, i: int) -> bool {
    0 <= i && i + d.len() <= s.len() && s.subrange(i, i + d.len()) == d
}

/// An occurrence of `d` in the tail `s.skip(start)` is an occurrence in `s`,
/// shifted by `start`.
proof fn lemma_match_shift(s: Seq<char>, d: Seq<char>, start: int, j: int)
    requires
        0 <= start <= s.len(),
    ensures
        0 <= j ==> match_at(s.skip(start), d, j) == match_at(s, d, start + j),
{
    if 0 <= j && j + d.len() <= s.len() - start {
        assert(s.skip(start).subrange(j, j + d.len()) =~= s.subrange(
            start + j,
            start + j + d.len(),
        ));
    }
}

/// A delimiter is a prefix exactly where it occurs at position zero.
proof fn lemma_prefix_is_match_at_zero(t: Seq<char>, d: Seq<char>)
    ensures
        d.is_prefix_of(t) == match_at(t, d, 0),
{
}

/// A string without any occurrence of the (non-empty) delimiter splits into
/// itself as the single segment.
proof fn lemma_split_no_match(t: Seq<char>, d: Seq<char>)
    requires
        d.len() >= 1,
        forall|k: int| !match_at(t, d, k),
    ensures
        split_on(t, d) == seq![t],
    decreases t.len(),
{
    lemma_prefix_is_match_at_zero(t, d);
    if t.len() == 0 {
    } else {
        let tail = t.drop_first();
        assert(tail =~= t.skip(1));
        assert forall|k: int| !match_at(tail, d, k) by {
            lemma_match_shift(t, d, 1, k);
        }
        lemma_split_no_match(tail, d);
        assert(split_on(t, d) =~= seq![t]) by {
            assert(seq![tail].update(0, seq![t[0]] + tail) =~= seq![seq![t[0]] + tail]);
            assert(seq![t[0]] + tail =~= t);
        }
    }
}

/// Where the leftmost occurrence of the delimiter is at position `m`, the
/// split is the segment before it followed by the split of what comes after.
proof fn lemma_split_advance(t: Seq<char>, d: Seq<char>, m: int)
    requires
        d.len() >= 1,
        match_at(t, d, m),
        forall|k: int| 0 <= k < m ==> !match_at(t, d, k),
    ensures
        split_on(t, d) == seq![t.take(m)] + split_on(t.skip(m + d.len()), d),
    decreases m,
{
    lemma_prefix_is_match_at_zero(t, d);
    if m == 0 {
        assert(t.take(0) =~= Seq::<char>::empty());
        assert(split_on(t, d) =~= seq![t.take(0)] + split_on(t.skip(d.len() as int), d));
    } else {
        assert(!d.is_prefix_of(t));
        assert(t.len() > 0);
        let tail = t.drop_first();
        assert(tail =~= t.skip(1));
        assert(match_at(tail, d, m - 1)) by {
            lemma_match_shift(t, d, 1, m - 1);
        }
        assert forall|k: int| 0 <= k < m - 1 implies !match_at(tail, d, k) by {
            lemma_match_shift(t, d, 1, k);
        }
        lemma_split_advance(tail, d, m - 1);
        let after = tail.skip(m - 1 + d.len());
        assert(after =~= t.skip(m + d.len()));
        let rest = split_on(tail, d);
        assert(rest == seq![tail.take(m - 1)] + split_on(after, d));
        assert(rest[0] == tail.take(m - 1));
        assert(seq![t[0]] + tail.take(m - 1) =~= t.take(m));
        assert(rest.update(0, seq![t[0]] + rest[0]) =~= seq![t.take(m)] + split_on(
            t.skip(m + d.len()),
            d,
        ));
    }
}

/// Whether `d` occurs in `s` at character position `i`, checked character by
/// character.
fn matches_at(s: &str, d: &str, i: usize) -> (r: bool)
    requires
        i + d@.len() <= s@.len(),
    ensures
        r == match_at(s@, d@, i as int),
{
    let n = s.unicode_len();
    let dn = d.unicode_len();
    let mut j: usize = 0;
    while j < dn
        invariant
            j <= dn,
            dn == d@.len(),
            n == s@.len(),
            i + dn <= s@.len(),
            forall|k: int| 0 <= k < j ==> s@[i + k] == d@[k],
        decreases dn - j,
    {
        if s.get_char(i + j) != d.get_char(j) {
            assert(!match_at(s@, d@, i as int)) by {
                if match_at(s@, d@, i as int) {
                    assert(s@.subrange(i as int, i + d@.len())[j as int] == d@[j as int]);
                }
            }
            return false;
        }
        j += 1;
    }
    assert(s@.subrange(i as int, i + d@.len()) =~= d@);
    true
}

/// The deep view of a vector of strings indexes to the view of each element.
pub proof fn lemma_dv_index(v: &Vec<String>)
    ensures
        v.deep_view().len() == v@.len(),
        forall|i: int| 0 <= i < v@.len() ==> v.deep_view()[i] == v@[i]@,
{
}

/// The segments of `s` split on the delimiter `d`, scanning left to right.
pub fn split_str(s: &str, d: &str) -> (r: Vec<String>)
    ensures
        r.deep_view() == split_on(s@, d@),
{
    let n = s.unicode_len();
    let dn = d.unicode_len();
    let mut parts: Vec<String> = Vec::new();
    if dn == 0 {
        parts.push(String::new());
        let mut i: usize = 0;
        while i < n
            invariant
                i <= n,
                n == s@.len(),
                parts@.len() == i + 1,
                parts@[0]@ == Seq::<char>::empty(),
                forall|k: int| 1 <= k <= i ==> parts@[k]@ == seq![s@[k - 1]],
            decreases n - i,
        {
            parts.push(String::from_str(s.substring_char(i, i + 1)));
            assert(s@.subrange(i as int, i + 1) =~= seq![s@[i as int]]);
            i += 1;
        }
        parts.push(String::new());
        proof {
            lemma_dv_index(&parts);
            assert(parts.deep_view() =~= split_empty_delim(s@));
        }
        return parts;
    }
    if dn > n {
        proof {
            lemma_split_no_match(s@, d@);
        }
        parts.push(String::from_str(s));
        proof {
            lemma_dv_index(&parts);
            assert(parts.deep_view() =~= seq![s@]);
        }
        return parts;
    }
    let mut start: usize = 0;
    let mut i: usize = 0;
    let ghost mut done: Seq<Seq<char>> = Seq::empty();
    proof {
        assert(s@.skip(0) =~= s@);
        assert(done + split_on(s@.skip(0), d@) =~= split_on(s@, d@));
    }
    while i <= n - dn
        invariant
            1 <= dn <= n,
            n == s@.len(),
            dn == d@.len(),
            start <= i <= n,
            forall|k: int| start <= k < i ==> !match_at(s@, d@, k),
            split_on(s@, d@) == done + split_on(s@.skip(start as int), d@),
            parts@.len() == done.len(),
            forall|k: int| 0 <= k < done.len() ==> parts@[k]@ == done[k],
        decreases n - i,
    {
        if matches_at(s, d, i) {
            parts.push(String::from_str(s.substring_char(start, i)));
            proof {
                let t = s@.skip(start as int);
                assert(match_at(t, d@, i - start)) by {
                    lemma_match_shift(s@, d@, start as int, i - start);
                }
                assert forall|k: int| 0 <= k < i - start implies !match_at(t, d@, k) by {
                    lemma_match_shift(s@, d@, start as int, k);
                }
                lemma_split_advance(t, d@, i - start);
                assert(t.take(i - start) =~= s@.subrange(start as int, i as int));
                assert(t.skip(i - start + dn) =~= s@.skip(i + dn));
                done = done.push(s@.subrange(start as int, i as int));
                assert(split_on(s@, d@) =~= done + split_on(s@.skip(i + dn), d@));
            }
            i += dn;
            start = i;
        } else {
            i += 1;
        }
    }
    parts.push(String::from_str(s.substring_char(start, n)));
    proof {
        let t = s@.skip(start as int);
        assert forall|k: int| !match_at(t, d@, k) by {
            lemma_match_shift(s@, d@, start as int, k);
        }
        lemma_split_no_match(t, d@);
        assert(t =~= s@.subrange(start as int, n as int));
        done = done.push(s@.subrange(start as int, n as int));
        assert(split_on(s@, d@) =~= done);
        lemma_dv_index(&parts);
        assert(parts.deep_view() =~= split_on(s@, d@));
    }
    parts
}

/// The elements of `parts` joined into one string with `d` between
/// neighbours.
pub fn join_strings(parts: &Vec<String>, d: &str) -> (r: String)
    ensures
        r@ == join_with(parts.deep_view(), d@),
{
    let mut out = String::new();
    let mut idx: usize = 0;
    while idx < parts.len()
        invariant
            idx <= parts.len(),
            idx == 0 ==> out@ == Seq::<char>::empty(),
            idx >= 1 ==> out@ == join_with(parts.deep_view().take(idx as int), d@),
        decreases parts.len() - idx,
    {
        if idx > 0 {
            out.append(d);
        }
        out.append(parts[idx].as_str());
        proof {
            let dv = parts.deep_view();
            lemma_dv_index(parts);
            assert(dv[idx as int] == parts@[idx as int]@);
            lemma_join_snoc(dv.take(idx as int), d@, dv[idx as int]);
            assert(dv.take(idx as int).push(dv[idx as int]) =~= dv.take(idx + 1));
            assert(dv.take(1) =~= seq![dv[0]]);
        }
        idx += 1;
    }
    assert(parts.deep_view().take(parts.len() as int) =~= parts.deep_view());
    out
}

/// Appending one more segment appends a delimiter and the segment to the
/// join, unless the segment is the first.
proof fn lemma_join_snoc(q: Seq<Seq<char>>, d: Seq<char>, x: Seq<char>)
    ensures
        join_with(q.push(x), d) == if q.len() == 0 {
            x
        } else {
            join_with(q, d) + d + x
        },
    decreases q.len(),
{
    if q.len() == 0 {
        assert(q.push(x) =~= seq![x]);
        assert(join_with(q.push(x), d) =~= x);
    } else if q.len() == 1 {
        assert(q.push(x).drop_first() =~= seq![x]);
        assert(q.push(x)[0] == q[0]);
        assert(join_with(seq![x], d) == x);
        assert(join_with(q.push(x), d) =~= q[0] + d + x);
    } else {
        lemma_join_snoc(q.drop_first(), d, x);
        assert(q.push(x).drop_first() =~= q.drop_first().push(x));
        assert(join_with(q.push(x), d) =~= join_with(q, d) + d + x);
    }
}

/// Whether `p` is a prefix of `s`, checked character by character.
pub fn str_starts_with(s: &str, p: &str) -> (r: bool)
    ensures
        r == p@.is_prefix_of(s@),
{
    let n = s.unicode_len();
    let pn = p.unicode_len();
    if pn > n {
        return false;
    }
    let mut j: usize = 0;
    while j < pn
        invariant
            j <= pn,
            pn <= n,
            n == s@.len(),
            pn == p@.len(),
            forall|k: int| 0 <= k < j ==> s@[k] == p@[k],
        decreases pn - j,
    {
        if s.get_char(j) != p.get_char(j) {
            assert(!p@.is_prefix_of(s@)) by {
                if p@.is_prefix_of(s@) {
                    assert(p@[j as int] == s@.subrange(0, pn as int)[j as int]);
                }
            }
            return false;
        }
        j += 1;
    }
    assert(p@ =~= s@.subrange(0, pn as int));
    true
}

/// `key` with the prefix `p` stripped where present; the flag says whether it
/// was.
pub fn strip_prefix_exec(key: &str, p: &str) -> (r: (bool, String))
    ensures
        r.0 == p@.is_prefix_of(key@),
        r.1@ == strip_prefix_spec(key@, p@),
{
    if str_starts_with(key, p) {
        let n = key.unicode_len();
        let pn = p.unicode_len();
        (true, String::from_str(key.substring_char(pn, n)))
    } else {
        (false, String::from_str(key))
    }
}

} // verus!
