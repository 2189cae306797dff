//! Reading text: its characters, and its lines as rows of characters.

use vstd::prelude::*;

verus! {

/// The contents of a vector of rows, row by row.
pub open spec fn rows_of<T>(v: Seq<Vec<T>>) -> Seq<Seq<T>> {
    v.map_values(|r: Vec<T>| r@)
}

/// Each row of `rows_of(v)` is the view of the vector at that place.
pub proof fn lemma_rows_of<T>(v: Seq<Vec<T>>)
    ensures
        rows_of(v).len() == v.len(),
        forall|i: int| 0 <= i < v.len() ==> #[trigger] v[i]@ == rows_of(v)[i],
{
}

/// Drops one carriage return that ends a row.
pub open spec fn strip_cr(row: Seq<char>) -> Seq<char> {
    if row.len() > 0 && row.last() == '\r' {
        row.drop_last()
    } else {
        row
    }
}

/// The finished rows and the row being read, after reading `s` from the left.
pub open spec fn split_state(s: Seq<char>) -> (Seq<Seq<char>>, Seq<char>)
    decreases s.len(),
{
    if s.len() == 0 {
        (seq![], seq![])
    } else {
        let (rows, cur) = split_state(s.drop_last());
        if s.last() == '\n' {
            (rows.push(strip_cr(cur)), seq![])
        } else {
            (rows, cur.push(s.last()))
        }
    }
}

/// The rows of `s`: split at each `\n`, a `\r` before it dropped, no empty
/// row after a final `\n`.
pub open spec fn lines_of(s: Seq<char>) -> Seq<Seq<char>> {
    let (rows, cur) = split_state(s);
    if cur.len() > 0 {
        rows.push(cur)
    } else {
        rows
    }
}

/// Every row has the length of the first, and there is at least one row.
pub open spec fn is_rectangular<T>(g: Seq<Seq<T>>) -> bool {
    &&& g.len() >= 1
    &&& forall|r: int| 0 <= r < g.len() ==> #[trigger] g[r].len() == g[0].len()
}

/// The characters of `s`, in a vector.
pub fn chars_of(s: &str) -> (r: Vec<char>)
    ensures
        r@ == s@,
{
    let mut r: Vec<char> = Vec::new();
    for c in it: s.chars()
        invariant
            it.seq() == s@,
            r@ == it.seq().take(it.index() as int),
    {
        r.push(c);
    }
    r
}

/// Splits text into rows of characters, as `lines_of` states.
pub fn split_rows(s: &str) -> (rows: Vec<Vec<char>>)
    ensures
        rows_of(rows@) == lines_of(s@),
{
    let cs = chars_of(s);
    let mut rows: Vec<Vec<char>> = Vec::new();
    let mut cur: Vec<char> = Vec::new();
    let mut i: usize = 0;
    while i < cs.len()
        invariant
            cs@ == s@,
            0 <= i <= cs.len(),
            (rows_of(rows@), cur@) == split_state(cs@.take(i as int)),
        decreases cs.len() - i,
    {
        assert(cs@.take(i + 1).drop_last() == cs@.take(i as int));
        let c = cs[i];
        if c == '\n' {
            let ghost old_rows = rows_of(rows@);
            let ghost old_cur = cur@;
            if cur.len() > 0 && cur[cur.len() - 1] == '\r' {
                cur.pop();
            }
            let row = cur;
            cur = Vec::new();
            assert(row@ == strip_cr(old_cur));
            rows.push(row);
            assert(rows_of(rows@) =~= old_rows.push(strip_cr(old_cur)));
            assert(cur@ =~= split_state(cs@.take(i + 1)).1);
        } else {
            cur.push(c);
        }
        i = i + 1;
    }
    assert(cs@.take(i as int) == s@);
    if cur.len() > 0 {
        let ghost old_rows = rows_of(rows@);
        let ghost old_cur = cur@;
        rows.push(cur);
        assert(rows_of(rows@) =~= old_rows.push(old_cur));
        assert(rows_of(rows@) =~= lines_of(s@));
    }
    rows
}

} // verus!
