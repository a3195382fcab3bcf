use vstd::prelude::*;
use vstd::string::{StrSliceExecFns, StringExecFns};

verus! {

/// The pieces of `s` between occurrences of `sep`, in order; always at least one.
pub open spec fn split(s: Seq<char>, sep: char) -> Seq<Seq<char>>
    decreases s.len(),
{
    if s.len() == 0 {
        seq![Seq::<char>::empty()]
    } else {
        let p = split(s.drop_last(), sep);
        if s.last() == sep {
            p.push(Seq::<char>::empty())
        } else {
            p.update(p.len() - 1, p.last().push(s.last()))
        }
    }
}

/// The pieces `parts` put together with `sep` between neighbours.
pub open spec fn join(parts: Seq<Seq<char>>, sep: char) -> Seq<char>
    decreases parts.len(),
{
    if parts.len() == 0 {
        Seq::<char>::empty()
    } else if parts.len() == 1 {
        parts[0]
    } else {
        join(parts.drop_last(), sep).push(sep) + parts.last()
    }
}

pub open spec fn free_of(s: Seq<char>, c: char) -> bool {
    forall|i: int| 0 <= i < s.len() ==> s[i] != c
}

pub proof fn lemma_split_len(s: Seq<char>, sep: char)
    ensures
        split(s, sep).len() >= 1,
    decreases s.len(),
{
    if s.len() > 0 {
        lemma_split_len(s.drop_last(), sep);
    }
}

/// A text without the separator is one piece.
pub proof fn lemma_split_free(s: Seq<char>, sep: char)
    requires
        free_of(s, sep),
    ensures
        split(s, sep) == seq![s],
    decreases s.len(),
{
    if s.len() > 0 {
        lemma_split_free(s.drop_last(), sep);
        assert(s.drop_last().push(s.last()) == s);
        assert(split(s, sep) =~= seq![s]);
    } else {
        assert(s =~= Seq::<char>::empty());
    }
}

/// Splitting around one separator splits each side.
pub proof fn lemma_split_concat(x: Seq<char>, y: Seq<char>, sep: char)
    ensures
        split(x.push(sep) + y, sep) == split(x, sep) + split(y, sep),
    decreases y.len(),
{
    if y.len() == 0 {
        assert(x.push(sep) + y == x.push(sep));
        assert(x.push(sep).drop_last() == x);
    } else {
        let s = x.push(sep) + y;
        assert(s.drop_last() == x.push(sep) + y.drop_last());
        lemma_split_concat(x, y.drop_last(), sep);
        lemma_split_len(y.drop_last(), sep);
        lemma_split_len(x, sep);
    }
}

/// Pieces that are free of the separator come back out of their join.
pub proof fn lemma_split_join(parts: Seq<Seq<char>>, sep: char)
    requires
        parts.len() >= 1,
        forall|i: int| 0 <= i < parts.len() ==> free_of(#[trigger] parts[i], sep),
    ensures
        split(join(parts, sep), sep) == parts,
    decreases parts.len(),
{
    if parts.len() == 1 {
        lemma_split_free(parts[0], sep);
        assert(seq![parts[0]] == parts);
    } else {
        let init = parts.drop_last();
        lemma_split_join(init, sep);
        lemma_split_concat(join(init, sep), parts.last(), sep);
        lemma_split_free(parts.last(), sep);
        assert(init + seq![parts.last()] == parts);
    }
}

/// The join of non-empty pieces is empty only when there are none.
pub proof fn lemma_join_empty(parts: Seq<Seq<char>>, sep: char)
    requires
        forall|i: int| 0 <= i < parts.len() ==> (#[trigger] parts[i]).len() > 0,
    ensures
        (join(parts, sep).len() == 0) == (parts.len() == 0),
    decreases parts.len(),
{
    if parts.len() > 1 {
        lemma_join_empty(parts.drop_last(), sep);
    }
}

/// Copies `s@.subrange(from, to)` into a new `String`.
pub fn substring(s: &str, from: usize, to: usize) -> (r: String)
    requires
        from <= to <= s@.len(),
    ensures
        r@ == s@.subrange(from as int, to as int),
{
    String::from_str(s.substring_char(from, to))
}

/// Splits `s` at every occurrence of `sep`.
pub fn split_at_char(s: &str, sep: char) -> (r: Vec<String>)
    ensures
        r@.map_values(|p: String| p@) == split(s@, sep),
{
    let n = s.unicode_len();
    let mut out: Vec<String> = Vec::new();
    let mut start: usize = 0;
    let mut i: usize = 0;
    assert(s@.subrange(0, 0) =~= Seq::<char>::empty());
    assert(out@.map_values(|p: String| p@).push(s@.subrange(0, 0)) =~= split(s@.subrange(0, 0), sep));
    while i < n
        invariant
            n == s@.len(),
            start <= i <= n,
            out@.map_values(|p: String| p@).push(s@.subrange(start as int, i as int)) == split(
                s@.subrange(0, i as int),
                sep,
            ),
        decreases n - i,
    {
        let c = s.get_char(i);
        let ghost pre = s@.subrange(0, i as int);
        let ghost cur = s@.subrange(0, i + 1);
        let ghost m0 = out@.map_values(|p: String| p@);
        let ghost piece = s@.subrange(start as int, i as int);
        assert(cur.drop_last() =~= pre);
        assert(cur.last() == c);
        proof {
            lemma_split_len(pre, sep);
        }
        if c == sep {
            let piece_s = substring(s, start, i);
            out.push(piece_s);
            start = i + 1;
            assert(out@.map_values(|p: String| p@) =~= m0.push(piece));
            assert(s@.subrange(start as int, i + 1) =~= Seq::<char>::empty());
            assert(split(cur, sep) == split(pre, sep).push(Seq::<char>::empty()));
            assert(out@.map_values(|p: String| p@).push(s@.subrange(start as int, i + 1)) =~= split(cur, sep));
        } else {
            assert(s@.subrange(start as int, i + 1) =~= piece.push(c));
            assert(split(cur, sep) == split(pre, sep).update(split(pre, sep).len() - 1, split(pre, sep).last().push(c)));
            assert(m0.push(piece.push(c)) =~= split(cur, sep));
        }
        i = i + 1;
    }
    let last = substring(s, start, n);
    out.push(last);
    assert(s@.subrange(0, n as int) == s@);
    assert(out@.map_values(|p: String| p@) =~= split(s@, sep));
    out
}

/// Joins `parts[from..]` with `sep`.
pub fn join_from(parts: &Vec<String>, from: usize, sep: &str) -> (r: String)
    requires
        sep@.len() == 1,
    ensures
        from < parts@.len() ==> r@ == join(
            parts@.map_values(|p: String| p@).subrange(from as int, parts@.len() as int),
            sep@[0],
        ),
        from >= parts@.len() ==> r@.len() == 0,
{
    let mut out = String::new();
    if from >= parts.len() {
        return out;
    }
    let ghost v = parts@.map_values(|p: String| p@);
    out.append(parts[from].as_str());
    let mut i: usize = from + 1;
    assert(v.subrange(from as int, i as int) =~= seq![v[from as int]]);
    while i < parts.len()
        invariant
            from < i <= parts@.len(),
            v == parts@.map_values(|p: String| p@),
            sep@.len() == 1,
            out@ == join(v.subrange(from as int, i as int), sep@[0]),
        decreases parts@.len() - i,
    {
        let ghost prev = out@;
        out.append(sep);
        out.append(parts[i].as_str());
        assert(v.subrange(from as int, i + 1).drop_last() =~= v.subrange(from as int, i as int));
        assert(sep@ =~= seq![sep@[0]]);
        assert(out@ =~= prev.push(sep@[0]) + v[i as int]);
        i = i + 1;
    }
    out
}

} // verus!
