//! Matching a text against a pattern with wildcards.
use vstd::prelude::*;

verus! {

/// Whether `text` matches `pattern`: `%` in the pattern stands for any run of
/// characters, the empty one included, `_` for any single character, and
/// every other character for itself.
pub open spec fn like_matches(pattern: Seq<char>, text: Seq<char>) -> bool
    decreases pattern.len() + text.len(),
{
    if pattern.len() == 0 {
        text.len() == 0
    } else if pattern[0] == '%' {
        like_matches(pattern.drop_first(), text) || (text.len() > 0 && like_matches(
            pattern,
            text.drop_first(),
        ))
    } else {
        text.len() > 0 && (pattern[0] == '_' || pattern[0] == text[0]) && like_matches(
            pattern.drop_first(),
            text.drop_first(),
        )
    }
}

/// Whether the text has no wildcard in it.
pub open spec fn plain(s: Seq<char>) -> bool {
    forall|i: int| 0 <= i < s.len() ==> #[trigger] s[i] != '%' && s[i] != '_'
}

/// Whether `text` begins with `prefix`.
pub open spec fn starts_with(text: Seq<char>, prefix: Seq<char>) -> bool {
    &&& prefix.len() <= text.len()
    &&& forall|i: int| 0 <= i < prefix.len() ==> #[trigger] text[i] == prefix[i]
}

/// A pattern that begins with a text without wildcards matches the texts
/// that begin with that text and go on with a match of the rest of the
/// pattern.
pub proof fn lemma_like_plain_prefix(prefix: Seq<char>, rest: Seq<char>, text: Seq<char>)
    requires
        plain(prefix),
    ensures
        like_matches(prefix + rest, text) == (starts_with(text, prefix) && like_matches(
            rest,
            text.skip(prefix.len() as int),
        )),
    decreases prefix.len(),
{
    if prefix.len() == 0 {
        assert(prefix + rest =~= rest);
        assert(text.skip(0) =~= text);
    } else {
        let pattern = prefix + rest;
        assert(pattern[0] == prefix[0]);
        assert(pattern.drop_first() =~= prefix.drop_first() + rest);
        assert(plain(prefix.drop_first())) by {
            assert forall|i: int| 0 <= i < prefix.drop_first().len() implies #[trigger] prefix.drop_first()[i] != '%'
                && prefix.drop_first()[i] != '_' by {
                assert(prefix.drop_first()[i] == prefix[i + 1]);
            }
        }
        if text.len() > 0 {
            lemma_like_plain_prefix(prefix.drop_first(), rest, text.drop_first());
            if prefix.len() <= text.len() {
                assert(text.drop_first().skip(prefix.len() - 1) =~= text.skip(prefix.len() as int));
            }
            if starts_with(text, prefix) {
                assert(text[0] == prefix[0]);
                assert forall|i: int| 0 <= i < prefix.len() - 1 implies #[trigger] text.drop_first()[i]
                    == prefix.drop_first()[i] by {
                    assert(text[i + 1] == prefix[i + 1]);
                }
            }
            if text[0] == prefix[0] && starts_with(text.drop_first(), prefix.drop_first()) {
                assert forall|i: int| 0 <= i < prefix.len() implies #[trigger] text[i] == prefix[i] by {
                    if i > 0 {
                        assert(text.drop_first()[i - 1] == prefix.drop_first()[i - 1]);
                    }
                }
            }
        }
    }
}

/// A pattern without wildcards matches itself only.
pub proof fn lemma_like_plain(pattern: Seq<char>, text: Seq<char>)
    requires
        plain(pattern),
    ensures
        like_matches(pattern, text) == (text == pattern),
{
    lemma_like_plain_prefix(pattern, Seq::empty(), text);
    assert(pattern + Seq::<char>::empty() =~= pattern);
    if starts_with(text, pattern) && text.skip(pattern.len() as int).len() == 0 {
        assert(text =~= pattern);
    }
    if text == pattern {
        assert(starts_with(text, pattern));
    }
}

/// Whether some end of `text` matches `rest`.
pub open spec fn some_end_matches(rest: Seq<char>, text: Seq<char>) -> bool {
    exists|k: int| 0 <= k <= text.len() && like_matches(rest, #[trigger] text.skip(k))
}

/// A pattern that begins with `%` matches the texts of which some end
/// matches the rest of the pattern.
pub proof fn lemma_like_percent(rest: Seq<char>, text: Seq<char>)
    ensures
        like_matches(seq!['%'] + rest, text) == some_end_matches(rest, text),
    decreases text.len(),
{
    let pattern = seq!['%'] + rest;
    assert(pattern[0] == '%');
    assert(pattern.drop_first() =~= rest);
    assert(text.skip(0) =~= text);
    if text.len() > 0 {
        let tail = text.drop_first();
        lemma_like_percent(rest, tail);
        if some_end_matches(rest, tail) {
            let k = choose|k: int| 0 <= k <= tail.len() && like_matches(rest, #[trigger] tail.skip(k));
            assert(tail.skip(k) =~= text.skip(k + 1));
        }
        if some_end_matches(rest, text) {
            let k = choose|k: int| 0 <= k <= text.len() && like_matches(rest, #[trigger] text.skip(k));
            if k > 0 {
                assert(tail.skip(k - 1) =~= text.skip(k));
            }
        }
    }
}

/// Whether the last `d` characters of `t` match `p` without its first `i`
/// characters.
spec fn cell(p: Seq<char>, t: Seq<char>, i: int, d: int) -> bool {
    like_matches(p.skip(i), t.skip(t.len() - d))
}

proof fn lemma_cell_end(p: Seq<char>, t: Seq<char>, d: int)
    requires
        0 <= d <= t.len(),
    ensures
        cell(p, t, p.len() as int, d) == (d == 0),
{
}

proof fn lemma_cell_step(p: Seq<char>, t: Seq<char>, i: int, d: int)
    requires
        0 <= i < p.len(),
        0 <= d <= t.len(),
    ensures
        cell(p, t, i, d) == (if p[i] == '%' {
            cell(p, t, i + 1, d) || (d > 0 && cell(p, t, i, d - 1))
        } else {
            d > 0 && (p[i] == '_' || p[i] == t[t.len() - d]) && cell(p, t, i + 1, d - 1)
        }),
{
    let j = t.len() - d;
    assert(p.skip(i).drop_first() =~= p.skip(i + 1));
    if d > 0 {
        assert(t.skip(j).drop_first() =~= t.skip(j + 1));
    }
}

/// Whether `text` matches `pattern`.
pub fn like(pattern: &Vec<char>, text: &Vec<char>) -> (r: bool)
    ensures
        r == like_matches(pattern@, text@),
{
    let m = pattern.len();
    let n = text.len();
    let ghost p = pattern@;
    let ghost t = text@;
    let mut tail = true;
    let mut row: Vec<bool> = Vec::new();
    let mut k: usize = 0;
    while k < n
        invariant
            k <= n,
            n == t.len(),
            row.len() == k,
            forall|q: int| 0 <= q < k ==> row[q] == cell(p, t, p.len() as int, q + 1),
        decreases n - k,
    {
        proof {
            lemma_cell_end(p, t, k + 1);
        }
        row.push(false);
        k += 1;
    }
    proof {
        lemma_cell_end(p, t, 0);
    }
    let mut i: usize = m;
    while i > 0
        invariant
            i <= m,
            m == p.len(),
            n == t.len(),
            p == pattern@,
            t == text@,
            row.len() == n,
            tail == cell(p, t, i as int, 0),
            forall|q: int| 0 <= q < n ==> row[q] == cell(p, t, i as int, q + 1),
        decreases i,
    {
        i -= 1;
        let c = pattern[i];
        let new_tail = c == '%' && tail;
        proof {
            lemma_cell_step(p, t, i as int, 0);
        }
        let mut new_row: Vec<bool> = Vec::new();
        let mut k: usize = 0;
        while k < n
            invariant
                k <= n,
                i < m,
                m == p.len(),
                n == t.len(),
                p == pattern@,
                t == text@,
                c == p[i as int],
                row.len() == n,
                new_row.len() == k,
                tail == cell(p, t, i + 1, 0),
                new_tail == cell(p, t, i as int, 0),
                forall|q: int| 0 <= q < n ==> row[q] == cell(p, t, i + 1, q + 1),
                forall|q: int| 0 <= q < k ==> new_row[q] == cell(p, t, i as int, q + 1),
            decreases n - k,
        {
            let below = if k == 0 {
                new_tail
            } else {
                new_row[k - 1]
            };
            let diag = if k == 0 {
                tail
            } else {
                row[k - 1]
            };
            let tc = text[n - 1 - k];
            let val = if c == '%' {
                row[k] || below
            } else {
                (c == '_' || c == tc) && diag
            };
            proof {
                lemma_cell_step(p, t, i as int, k + 1);
            }
            new_row.push(val);
            k += 1;
        }
        row = new_row;
        tail = new_tail;
    }
    assert(p.skip(0) =~= p);
    assert(t.skip(0) =~= t);
    if n == 0 {
        tail
    } else {
        row[n - 1]
    }
}

} // verus!
