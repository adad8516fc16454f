//! Splitting a path or a pattern into its `/`-delimited segments.
//!
//! One leading and one trailing `/` are trimmed, then the remainder is
//! split on `/`. Patterns at registration and paths at dispatch go
//! through the same functions, so `/` itself yields the single empty
//! segment on both sides.

use vstd::prelude::*;

verus! {

/// The string with one leading and one trailing `/` removed, as the
/// executable trimming does: the trailing slash is looked for after the
/// leading one was dropped.
pub open spec fn spec_trim(p: Seq<char>) -> Seq<char> {
    let q = if p.len() > 0 && p[0] == '/' {
        p.skip(1)
    } else {
        p
    };
    if q.len() > 0 && q.last() == '/' {
        q.drop_last()
    } else {
        q
    }
}

/// The `/`-delimited segments of a string, in order. The empty string
/// yields one empty segment; `n` slashes yield `n + 1` segments.
pub open spec fn spec_split(p: Seq<char>) -> Seq<Seq<char>>
    decreases p.len(),
{
    if p.len() == 0 {
        seq![Seq::<char>::empty()]
    } else if p[0] == '/' {
        seq![Seq::<char>::empty()].add(spec_split(p.skip(1)))
    } else {
        let rest = spec_split(p.skip(1));
        seq![seq![p[0]].add(rest[0])].add(rest.skip(1))
    }
}

/// The segments that registration and dispatch both walk: trim, then
/// split.
pub open spec fn spec_segments(p: Seq<char>) -> Seq<Seq<char>> {
    spec_split(spec_trim(p))
}

/// The views of a vector of owned segments.
pub open spec fn seg_views(v: Seq<String>) -> Seq<Seq<char>> {
    v.map_values(|s: String| s@)
}

/// A split always yields at least one segment.
pub proof fn lemma_split_nonempty(p: Seq<char>)
    ensures
        spec_split(p).len() >= 1,
    decreases p.len(),
{
    if p.len() != 0 {
        lemma_split_nonempty(p.skip(1));
    }
}

/// Appending one character extends the split: a slash opens a new empty
/// segment, any other character is appended to the last segment.
pub proof fn lemma_split_snoc(p: Seq<char>, c: char)
    ensures
        c == '/' ==> spec_split(p.push(c)) == spec_split(p).push(Seq::<char>::empty()),
        c != '/' ==> spec_split(p.push(c)) == spec_split(p).update(
            spec_split(p).len() - 1,
            spec_split(p).last().push(c),
        ),
    decreases p.len(),
{
    reveal_with_fuel(spec_split, 3);
    lemma_split_nonempty(p);
    if p.len() == 0 {
        assert(p =~= Seq::<char>::empty());
        if c == '/' {
            assert(p.push(c)[0] == '/');
            assert(p.push(c).skip(1) =~= Seq::<char>::empty());
            assert(spec_split(p.push(c)) =~~= spec_split(p).push(Seq::<char>::empty()));
        } else {
            assert(p.push(c)[0] == c);
            assert(p.push(c).skip(1) =~= Seq::<char>::empty());
            assert(spec_split(p.push(c)) =~~= spec_split(p).update(
                spec_split(p).len() - 1,
                spec_split(p).last().push(c),
            ));
        }
    } else {
        lemma_split_nonempty(p.skip(1));
        lemma_split_snoc(p.skip(1), c);
        assert(p.push(c)[0] == p[0]);
        assert(p.push(c).skip(1) =~= p.skip(1).push(c));
        if c == '/' {
            assert(spec_split(p.push(c)) =~~= spec_split(p).push(Seq::<char>::empty()));
        } else {
            lemma_split_nonempty(p.skip(1).push(c));
            assert(spec_split(p.push(c)) =~~= spec_split(p).update(
                spec_split(p).len() - 1,
                spec_split(p).last().push(c),
            ));
        }
    }
}

/// The segments joined back with `/` between them: the path suffix
/// that a catch-all wildcard binds.
pub open spec fn join_segments(segs: Seq<Seq<char>>) -> Seq<char>
    decreases segs.len(),
{
    if segs.len() == 0 {
        Seq::<char>::empty()
    } else if segs.len() == 1 {
        segs[0]
    } else {
        segs[0].add(seq!['/']).add(join_segments(segs.skip(1)))
    }
}

/// Joining one more segment appends a slash and the segment.
pub proof fn lemma_join_snoc(segs: Seq<Seq<char>>, x: Seq<char>)
    requires
        segs.len() >= 1,
    ensures
        join_segments(segs.push(x)) == join_segments(segs).add(seq!['/']).add(x),
    decreases segs.len(),
{
    reveal_with_fuel(join_segments, 3);
    if segs.len() == 1 {
        assert(segs.push(x).skip(1) =~~= seq![x]);
        assert(join_segments(segs.push(x)) =~= join_segments(segs).add(seq!['/']).add(x));
    } else {
        lemma_join_snoc(segs.skip(1), x);
        assert(segs.push(x).skip(1) =~~= segs.skip(1).push(x));
        assert(join_segments(segs.push(x)) =~= segs[0].add(seq!['/']).add(
            join_segments(segs.skip(1)).add(seq!['/']).add(x),
        ));
        assert(join_segments(segs.push(x)) =~= join_segments(segs).add(seq!['/']).add(x));
    }
}

/// Trims one leading and one trailing `/` from a pattern or a path, the
/// leading one first.
pub fn trim_path(pattern: &str) -> (r: String)
    ensures
        r@ == spec_trim(pattern@),
{
    let n = pattern.unicode_len();
    let lo: usize = if n > 0 && pattern.get_char(0) == '/' {
        1
    } else {
        0
    };
    let hi: usize = if n > lo && pattern.get_char(n - 1) == '/' {
        n - 1
    } else {
        n
    };
    let r = String::from_str(pattern.substring_char(lo, hi));
    proof {
        assert(r@ =~= spec_trim(pattern@));
    }
    r
}

/// Splits an already-trimmed string into its segments.
pub fn split_segments(trimmed: &str) -> (segs: Vec<String>)
    ensures
        seg_views(segs@) == spec_split(trimmed@),
{
    let n = trimmed.unicode_len();
    let mut segs: Vec<String> = Vec::new();
    let mut start: usize = 0;
    let mut i: usize = 0;
    proof {
        assert(trimmed@.take(0) =~= Seq::<char>::empty());
        assert(seg_views(segs@).push(trimmed@.subrange(0, 0)) =~~= spec_split(trimmed@.take(0)));
    }
    while i < n
        invariant
            n == trimmed@.len(),
            start <= i <= n,
            seg_views(segs@).push(trimmed@.subrange(start as int, i as int)) == spec_split(
                trimmed@.take(i as int),
            ),
        decreases n - i,
    {
        let ghost pre = trimmed@.take(i as int);
        let c = trimmed.get_char(i);
        proof {
            lemma_split_nonempty(pre);
            lemma_split_snoc(pre, c);
            assert(trimmed@.take(i + 1) =~= pre.push(c));
        }
        if c == '/' {
            let seg = String::from_str(trimmed.substring_char(start, i));
            segs.push(seg);
            proof {
                assert(seg_views(segs@).push(trimmed@.subrange(i + 1, i + 1)) =~~= spec_split(
                    trimmed@.take(i + 1),
                ));
            }
            start = i + 1;
        } else {
            proof {
                assert(trimmed@.subrange(start as int, i + 1) =~= trimmed@.subrange(
                    start as int,
                    i as int,
                ).push(c));
                assert(seg_views(segs@).push(trimmed@.subrange(start as int, i + 1)) =~~= spec_split(
                    trimmed@.take(i + 1),
                ));
            }
        }
        i = i + 1;
    }
    let last = String::from_str(trimmed.substring_char(start, n));
    segs.push(last);
    proof {
        assert(trimmed@.take(n as int) =~= trimmed@);
        assert(seg_views(segs@) =~~= spec_split(trimmed@));
    }
    segs
}

/// Trims and splits in one step: the segments that registration and
/// dispatch walk.
pub fn path_segments(path: &str) -> (segs: Vec<String>)
    ensures
        seg_views(segs@) == spec_segments(path@),
{
    let trimmed = trim_path(path);
    split_segments(trimmed.as_str())
}

} // verus!
