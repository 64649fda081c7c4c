//! Splitting raw text into lines and comma-separated cells, the shared
//! front half of both decoding paths.
use vstd::prelude::*;
use vstd::string::*;

verus! {

/// The views of a vector of owned segments.
pub open spec fn seg_views(v: Seq<String>) -> Seq<Seq<char>> {
    v.map_values(|t: String| t@)
}

/// The segments of `s` split on `sep`: one more segment than separators,
/// in order, empty segments kept.
pub open spec fn split_on(s: Seq<char>, sep: char) -> Seq<Seq<char>>
    decreases s.len(),
{
    if s.len() == 0 {
        seq![Seq::<char>::empty()]
    } else {
        let p = split_on(s.drop_last(), sep);
        if s.last() == sep {
            p.push(Seq::<char>::empty())
        } else {
            p.update(p.len() - 1, p.last().push(s.last()))
        }
    }
}

/// A split holds at least one segment.
pub proof fn lemma_split_on_len(s: Seq<char>, sep: char)
    ensures
        split_on(s, sep).len() >= 1,
    decreases s.len(),
{
    if s.len() > 0 {
        lemma_split_on_len(s.drop_last(), sep);
    }
}

/// Splits text on a separator character into owned segments.
pub fn split_str(s: &str, sep: char) -> (r: Vec<String>)
    ensures
        seg_views(r@) == split_on(s@, sep),
{
    let n = s.unicode_len();
    let mut out: Vec<String> = Vec::new();
    let mut start: usize = 0;
    let mut i: usize = 0;
    proof {
        assert(split_on(s@.subrange(0, 0), sep) =~= seq![Seq::<char>::empty()]);
        assert(seg_views(out@).push(s@.subrange(0, 0)) =~~= seq![Seq::<char>::empty()]);
    }
    while i < n
        invariant
            0 <= start <= i <= n,
            n == s@.len(),
            seg_views(out@).push(s@.subrange(start as int, i as int)) == split_on(
                s@.subrange(0, i as int),
                sep,
            ),
        decreases n - i,
    {
        let c = s.get_char(i);
        let ghost pre = s@.subrange(0, i as int);
        let ghost cur = s@.subrange(start as int, i as int);
        proof {
            assert(s@.subrange(0, i + 1).drop_last() =~= pre);
            assert(s@.subrange(0, i + 1).last() == s@[i as int]);
        }
        if c == sep {
            let seg = String::from_str(s.substring_char(start, i));
            out.push(seg);
            start = i + 1;
            proof {
                let p = split_on(pre, sep);
                assert(split_on(s@.subrange(0, i + 1), sep) == p.push(Seq::<char>::empty()));
                assert(seg_views(out@) =~= p);
                assert(seg_views(out@).push(s@.subrange(start as int, i + 1)) =~~= p.push(
                    Seq::<char>::empty(),
                ));
            }
        } else {
            proof {
                let p = split_on(pre, sep);
                lemma_split_on_len(pre, sep);
                assert(p.last() == cur);
                assert(split_on(s@.subrange(0, i + 1), sep) == p.update(
                    p.len() - 1,
                    cur.push(s@[i as int]),
                ));
                assert(s@.subrange(start as int, i + 1) =~= cur.push(s@[i as int]));
                assert(seg_views(out@).push(s@.subrange(start as int, i + 1)) =~= p.update(
                    p.len() - 1,
                    cur.push(s@[i as int]),
                ));
            }
        }
        i += 1;
    }
    let ghost done = out@;
    let seg = String::from_str(s.substring_char(start, n));
    out.push(seg);
    proof {
        assert(s@.subrange(0, n as int) =~= s@);
        assert(seg_views(out@) =~= seg_views(done).push(s@.subrange(start as int, n as int)));
    }
    out
}

/// A line with one carriage return stripped from its end.
pub open spec fn strip_cr(l: Seq<char>) -> Seq<char> {
    if l.len() > 0 && l.last() == '\r' {
        l.drop_last()
    } else {
        l
    }
}

/// The lines of `s`: segments between newline characters, a final newline
/// read as a terminator rather than a separator, and one trailing carriage
/// return stripped from each line.
pub open spec fn lines_of(s: Seq<char>) -> Seq<Seq<char>> {
    let raw = split_on(s, '\n');
    let kept = if raw.last().len() == 0 {
        raw.drop_last()
    } else {
        raw
    };
    kept.map_values(|l: Seq<char>| strip_cr(l))
}

/// The cells of one line: its segments between commas.
pub open spec fn cells_of(l: Seq<char>) -> Seq<Seq<char>> {
    split_on(l, ',')
}

/// Splits text into its lines.
pub fn split_lines(s: &str) -> (r: Vec<String>)
    ensures
        seg_views(r@) == lines_of(s@),
{
    let mut raw = split_str(s, '\n');
    proof {
        lemma_split_on_len(s@, '\n');
    }
    let last_len = raw[raw.len() - 1].as_str().unicode_len();
    if last_len == 0 {
        let ghost before = raw@;
        raw.pop();
        proof {
            assert(seg_views(raw@) =~= seg_views(before).drop_last());
        }
    }
    let ghost kept = seg_views(raw@);
    let n = raw.len();
    let mut out: Vec<String> = Vec::new();
    let mut i: usize = 0;
    while i < n
        invariant
            0 <= i <= n,
            n == raw@.len(),
            kept == seg_views(raw@),
            out@.len() == i,
            forall|k: int| 0 <= k < i ==> #[trigger] out@[k]@ == strip_cr(kept[k]),
        decreases n - i,
    {
        let line = &raw[i];
        let ln = line.as_str().unicode_len();
        let stripped: String;
        if ln > 0 && line.as_str().get_char(ln - 1) == '\r' {
            stripped = String::from_str(line.as_str().substring_char(0, ln - 1));
            proof {
                assert(line@.subrange(0, ln - 1) =~= line@.drop_last());
            }
        } else {
            stripped = line.clone();
        }
        proof {
            assert(kept[i as int] == raw@[i as int]@);
            assert(stripped@ == strip_cr(kept[i as int]));
        }
        out.push(stripped);
        i += 1;
    }
    proof {
        let goal = kept.map_values(|l: Seq<char>| strip_cr(l));
        assert forall|k: int| 0 <= k < n implies seg_views(out@)[k] == goal[k] by {
            assert(seg_views(out@)[k] == out@[k]@);
            assert(goal[k] == strip_cr(kept[k]));
        }
        assert(seg_views(out@) =~= goal);
    }
    out
}

/// Splits one line into its comma-separated cells.
pub fn split_cells(l: &str) -> (r: Vec<String>)
    ensures
        seg_views(r@) == cells_of(l@),
{
    split_str(l, ',')
}

} // verus!
