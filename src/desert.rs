//! A desert map of labelled nodes, each with a left and a right neighbour, walked
//! by a repeating list of `L` / `R` instructions until a node ending in `Z`.

use crate::text::{chars_of, lemma_rows_of, lines_of, rows_of, split_rows};
use vstd::arithmetic::div_mod::{
    lemma_fundamental_div_mod, lemma_fundamental_div_mod_converse_mod, lemma_mod_multiples_basic,
};
use vstd::prelude::*;

verus! {

/// A node's label.
pub type State = String;

/// A node's left and right neighbours.
pub type Transition = (String, String);

/// What a map entry holds, as characters.
pub type EntryView = (Seq<char>, (Seq<char>, Seq<char>));

/// The nodes of a desert map, each label once, in the order first read.
#[derive(Debug)]
pub struct DesertMap {
    entries: Vec<(State, Transition)>,
}

/// The instructions of a walk, read again from the start once used up.
#[derive(Debug)]
pub struct InstStream {
    insts: Vec<char>,
}

pub open spec fn entry_view(e: (State, Transition)) -> EntryView {
    (e.0@, (e.1.0@, e.1.1@))
}

/// Where label `k` stands in `es`, or `-1`.
pub open spec fn key_index(es: Seq<EntryView>, k: Seq<char>) -> int {
    if exists|i: int| 0 <= i < es.len() && #[trigger] es[i].0 == k {
        choose|i: int| 0 <= i < es.len() && #[trigger] es[i].0 == k
    } else {
        -1
    }
}

/// No label stands twice in `es`.
pub open spec fn keys_unique(es: Seq<EntryView>) -> bool {
    forall|i: int, j: int| 0 <= i < es.len() && 0 <= j < es.len() && #[trigger] es[i].0 == #[trigger] es[j].0 ==> i == j
}

/// `es` with label `k` now leading to `v`: replaced where it stands, else appended.
pub open spec fn insert_entry(es: Seq<EntryView>, k: Seq<char>, v: (Seq<char>, Seq<char>)) -> Seq<EntryView> {
    let i = key_index(es, k);
    if i >= 0 {
        es.update(i, (k, v))
    } else {
        es.push((k, v))
    }
}

/// The neighbours of label `k`, if it is in `es`.
pub open spec fn lookup(es: Seq<EntryView>, k: Seq<char>) -> Option<(Seq<char>, Seq<char>)> {
    let i = key_index(es, k);
    if i >= 0 {
        Some(es[i].1)
    } else {
        None
    }
}

/// A line `AAA = (BBB, CCC)`: at least fifteen characters, the first fifteen ASCII.
pub open spec fn is_pair_line(line: Seq<char>) -> bool {
    &&& line.len() >= 15
    &&& forall|i: int| 0 <= i < 15 ==> (#[trigger] line[i] as u32) < 128
}

/// The label and neighbours a pair line names, at columns 0, 7 and 12.
pub open spec fn pair_of(line: Seq<char>) -> EntryView {
    (line.subrange(0, 3), (line.subrange(7, 10), line.subrange(12, 15)))
}

/// The map that the first `n` lines build, each line entered in turn.
pub open spec fn desert_of(lines: Seq<Seq<char>>, n: int) -> Seq<EntryView>
    decreases n,
{
    if n <= 0 {
        seq![]
    } else {
        let p = pair_of(lines[n - 1]);
        insert_entry(desert_of(lines, n - 1), p.0, p.1)
    }
}

/// Where one instruction leads from node `node`; none for a missing node or an
/// instruction other than `L` and `R`.
pub open spec fn step(es: Seq<EntryView>, node: Seq<char>, inst: char) -> Option<Seq<char>> {
    match lookup(es, node) {
        Some(t) => if inst == 'L' {
            Some(t.0)
        } else if inst == 'R' {
            Some(t.1)
        } else {
            None
        },
        None => None,
    }
}

/// The node reached after `k` instructions from `init`, the instructions repeating.
pub open spec fn walk(es: Seq<EntryView>, insts: Seq<char>, init: Seq<char>, k: nat) -> Option<Seq<char>>
    decreases k,
{
    if k == 0 {
        Some(init)
    } else {
        match walk(es, insts, init, (k - 1) as nat) {
            Some(n) => step(es, n, insts[(k - 1) % insts.len() as int]),
            None => None,
        }
    }
}

pub open spec fn ends_with_char(n: Seq<char>, c: char) -> bool {
    n.len() > 0 && n.last() == c
}

/// The walk from `init` first stands on a node ending in `Z` after `k` steps,
/// and every step before is defined.
pub open spec fn first_z_at(es: Seq<EntryView>, insts: Seq<char>, init: Seq<char>, k: nat) -> bool {
    &&& k >= 1
    &&& walk(es, insts, init, k) is Some
    &&& ends_with_char(walk(es, insts, init, k)->0, 'Z')
    &&& forall|j: nat| 1 <= j < k ==> #[trigger] walk(es, insts, init, j) is Some && !ends_with_char(walk(es, insts, init, j)->0, 'Z')
}

/// Relies on `String`'s `FromIterator<char>`: the string holds exactly the given characters.
#[verifier::external_body]
fn string_of(cs: &Vec<char>) -> (r: String)
    ensures
        r@ == cs@,
{
    cs.iter().collect()
}

fn sub_chars(cs: &Vec<char>, lo: usize, hi: usize) -> (r: Vec<char>)
    requires
        lo <= hi <= cs@.len(),
    ensures
        r@ == cs@.subrange(lo as int, hi as int),
{
    let mut r: Vec<char> = Vec::new();
    let mut i: usize = lo;
    while i < hi
        invariant
            lo <= i <= hi <= cs@.len(),
            r@ == cs@.subrange(lo as int, i as int),
        decreases hi - i,
    {
        r.push(cs[i]);
        i = i + 1;
        assert(r@ =~= cs@.subrange(lo as int, i as int));
    }
    r
}

/// Reads `AAA = (BBB, CCC)` into a label and its two neighbours.
pub fn parse_map_pair(line_text: &str) -> (r: (State, Transition))
    requires
        is_pair_line(line_text@),
    ensures
        entry_view(r) == pair_of(line_text@),
{
    let cs = chars_of(line_text);
    let state = string_of(&sub_chars(&cs, 0, 3));
    let left_transition = string_of(&sub_chars(&cs, 7, 10));
    let right_transition = string_of(&sub_chars(&cs, 12, 15));
    (state, (left_transition, right_transition))
}

impl DesertMap {
    /// The entries, as characters.
    pub closed spec fn view_entries(&self) -> Seq<EntryView> {
        self.entries@.map_values(|e: (State, Transition)| entry_view(e))
    }

    pub open spec fn wf(&self) -> bool {
        keys_unique(self.view_entries())
    }

    /// Where `k` stands among the entries.
    fn find_key(&self, k: &String) -> (r: Option<usize>)
        requires
            self.wf(),
        ensures
            r is None ==> key_index(self.view_entries(), k@) == -1,
            r matches Some(i) ==> i == key_index(self.view_entries(), k@) && i < self.view_entries().len(),
    {
        let ghost es = self.view_entries();
        let mut i: usize = 0;
        while i < self.entries.len()
            invariant
                es == self.view_entries(),
                es.len() == self.entries@.len(),
                keys_unique(es),
                0 <= i <= es.len(),
                forall|j: int| 0 <= j < i ==> es[j].0 != k@,
            decreases es.len() - i,
        {
            if self.entries[i].0 == *k {
                proof {
                    assert(es[i as int].0 == k@);
                    let j = key_index(es, k@);
                    assert(es[j].0 == k@ && 0 <= j < es.len());
                }
                return Some(i);
            }
            i = i + 1;
        }
        None
    }

    /// Enters label `k` leading to `v`, replacing an entry with that label.
    fn insert(&mut self, k: State, v: Transition)
        requires
            old(self).wf(),
        ensures
            final(self).wf(),
            final(self).view_entries() == insert_entry(old(self).view_entries(), k@, (v.0@, v.1@)),
    {
        let ghost es = self.view_entries();
        let ghost kv = (k@, (v.0@, v.1@));
        match self.find_key(&k) {
            Some(i) => {
                self.entries.set(i, (k, v));
                assert(self.view_entries() =~= es.update(i as int, kv));
            },
            None => {
                self.entries.push((k, v));
                assert(self.view_entries() =~= es.push(kv));
            },
        }
    }

    /// The neighbours of label `k`.
    fn get(&self, k: &String) -> (r: Option<&Transition>)
        requires
            self.wf(),
        ensures
            r is None ==> lookup(self.view_entries(), k@) is None,
            r matches Some(t) ==> lookup(self.view_entries(), k@) == Some((t.0@, t.1@)),
    {
        match self.find_key(k) {
            Some(i) => Some(&self.entries[i].1),
            None => None,
        }
    }
}

/// The lines after the instruction line and the blank line below it.
pub open spec fn map_lines(lines: Seq<Seq<char>>) -> Seq<Seq<char>> {
    if lines.len() >= 2 {
        lines.subrange(2, lines.len() as int)
    } else {
        seq![]
    }
}

/// Every line of `lines` is a pair line.
pub open spec fn all_pair_lines(lines: Seq<Seq<char>>) -> bool {
    forall|i: int| 0 <= i < lines.len() ==> is_pair_line(#[trigger] lines[i])
}

/// The map that the text of a whole puzzle describes.
pub open spec fn map_of_text(s: Seq<char>) -> Seq<EntryView> {
    desert_of(map_lines(lines_of(s)), map_lines(lines_of(s)).len() as int)
}

/// `d` divides `m`.
pub open spec fn divides(d: int, m: int) -> bool {
    m % d == 0
}

/// Relies on num's `integer::lcm` on `u64`: the least common multiple, computed as
/// `a * (b / gcd(a, b))`, which overflows only where that multiple exceeds `u64::MAX`.
#[verifier::external_body]
fn lcm_u64(a: u64, b: u64) -> (r: u64)
    requires
        a > 0,
        b > 0,
        exists|m: int| 0 < m <= u64::MAX && #[trigger] divides(a as int, m) && divides(b as int, m),
    ensures
        r > 0,
        divides(a as int, r as int),
        divides(b as int, r as int),
        forall|m: int| divides(a as int, m) && divides(b as int, m) ==> #[trigger] divides(r as int, m),
{
    num::integer::lcm(a, b)
}

proof fn lemma_divides_trans(a: int, b: int, c: int)
    requires
        a > 0,
        b > 0,
        divides(a, b),
        divides(b, c),
    ensures
        divides(a, c),
{
    lemma_fundamental_div_mod(b, a);
    lemma_fundamental_div_mod(c, b);
    let p = b / a;
    let q = c / b;
    assert(c == (p * q) * a) by (nonlinear_arith)
        requires
            b == a * p,
            c == b * q,
    ;
    lemma_mod_multiples_basic(p * q, a);
}

proof fn lemma_first_z_unique(es: Seq<EntryView>, insts: Seq<char>, init: Seq<char>, k1: nat, k2: nat)
    requires
        first_z_at(es, insts, init, k1),
        first_z_at(es, insts, init, k2),
    ensures
        k1 == k2,
{
    if k1 < k2 {
        assert(walk(es, insts, init, k1) is Some);
    } else if k2 < k1 {
        assert(walk(es, insts, init, k2) is Some);
    }
}

/// Labels of `es` that end in `A`, in order, among the first `n` entries.
pub open spec fn a_keys(es: Seq<EntryView>, n: int) -> Seq<Seq<char>>
    decreases n,
{
    if n <= 0 {
        seq![]
    } else if ends_with_char(es[n - 1].0, 'A') {
        a_keys(es, n - 1).push(es[n - 1].0)
    } else {
        a_keys(es, n - 1)
    }
}

/// Every walk from a label of `starts` reaches a node ending in `Z`.
pub open spec fn all_reach_z(es: Seq<EntryView>, insts: Seq<char>, starts: Seq<Seq<char>>) -> bool {
    forall|i: int| 0 <= i < starts.len() ==> #[trigger] reaches_z(es, insts, starts[i])
}

/// The walk from `init` reaches a node ending in `Z` within `u64::MAX` steps.
pub open spec fn reaches_z(es: Seq<EntryView>, insts: Seq<char>, init: Seq<char>) -> bool {
    exists|k: nat| k <= u64::MAX && #[trigger] first_z_at(es, insts, init, k)
}

/// `m` is a multiple of the number of steps of every walk from a label of `starts`.
pub open spec fn multiple_of_all(es: Seq<EntryView>, insts: Seq<char>, starts: Seq<Seq<char>>, m: int) -> bool {
    forall|i: int, k: nat| 0 <= i < starts.len() && #[trigger] first_z_at(es, insts, starts[i], k) ==> divides(k as int, m)
}

fn ends_with_z(node: &String) -> (r: bool)
    ensures
        r == ends_with_char(node@, 'Z'),
{
    let cs = chars_of(node.as_str());
    cs.len() > 0 && cs[cs.len() - 1] == 'Z'
}

fn ends_with_a(node: &String) -> (r: bool)
    ensures
        r == ends_with_char(node@, 'A'),
{
    let cs = chars_of(node.as_str());
    cs.len() > 0 && cs[cs.len() - 1] == 'A'
}

fn pair_from_chars(cs: &Vec<char>) -> (r: (State, Transition))
    requires
        is_pair_line(cs@),
    ensures
        entry_view(r) == pair_of(cs@),
{
    let state = string_of(&sub_chars(cs, 0, 3));
    let left_transition = string_of(&sub_chars(cs, 7, 10));
    let right_transition = string_of(&sub_chars(cs, 12, 15));
    (state, (left_transition, right_transition))
}

/// The map that the rows from `from` on build.
fn desert_from_rows(rows: &Vec<Vec<char>>, from: usize) -> (m: DesertMap)
    requires
        from <= rows@.len(),
        all_pair_lines(rows_of(rows@).subrange(from as int, rows@.len() as int)),
    ensures
        m.wf(),
        m.view_entries() == desert_of(rows_of(rows@).subrange(from as int, rows@.len() as int), rows@.len() - from),
{
    proof {
        lemma_rows_of(rows@);
    }
    let ghost ls = rows_of(rows@).subrange(from as int, rows@.len() as int);
    let mut m = DesertMap { entries: Vec::new() };
    proof {
        assert(m.view_entries() =~= seq![]);
    }
    let mut i: usize = from;
    while i < rows.len()
        invariant
            ls == rows_of(rows@).subrange(from as int, rows@.len() as int),
            rows_of(rows@).len() == rows@.len(),
            forall|j: int| 0 <= j < rows@.len() ==> #[trigger] rows@[j]@ == rows_of(rows@)[j],
            all_pair_lines(ls),
            from <= i <= rows@.len(),
            m.wf(),
            m.view_entries() == desert_of(ls, i - from),
        decreases rows@.len() - i,
    {
        assert(is_pair_line(ls[i - from]));
        let (k, v) = pair_from_chars(&rows[i]);
        m.insert(k, v);
        i = i + 1;
    }
    m
}

/// Reads one pair line per line of `raw_text`, later lines replacing earlier ones
/// with the same label.
pub fn parse_desert_map(raw_text: &str) -> (m: DesertMap)
    requires
        all_pair_lines(lines_of(raw_text@)),
    ensures
        m.wf(),
        m.view_entries() == desert_of(lines_of(raw_text@), lines_of(raw_text@).len() as int),
{
    let rows = split_rows(raw_text);
    proof {
        assert(rows_of(rows@).subrange(0, rows@.len() as int) =~= rows_of(rows@));
    }
    desert_from_rows(&rows, 0)
}

impl InstStream {
    /// The instructions, before they repeat.
    pub closed spec fn insts(&self) -> Seq<char> {
        self.insts@
    }

    /// The first `n` instructions of the stream.
    pub fn take(&self, n: usize) -> (r: Vec<char>)
        requires
            self.insts().len() > 0,
        ensures
            r@.len() == n,
            forall|i: int| 0 <= i < n ==> #[trigger] r@[i] == self.insts()[i % self.insts().len() as int],
    {
        let mut r: Vec<char> = Vec::new();
        let mut i: usize = 0;
        let mut idx: usize = 0;
        while i < n
            invariant
                self.insts().len() > 0,
                0 <= i <= n,
                r@.len() == i,
                idx == (i as int) % (self.insts().len() as int),
                forall|j: int| 0 <= j < i ==> #[trigger] r@[j] == self.insts()[j % self.insts().len() as int],
            decreases n - i,
        {
            proof {
                lemma_mod_succ(i as int, self.insts().len() as int);
                assert(idx < self.insts@.len());
            }
            r.push(self.insts[idx]);
            idx = if idx == self.insts.len() - 1 {
                0
            } else {
                idx + 1
            };
            i = i + 1;
        }
        r
    }
}

proof fn lemma_mod_succ(i: int, n: int)
    requires
        n > 0,
        i >= 0,
    ensures
        (i + 1) % n == if i % n + 1 == n {
            0
        } else {
            i % n + 1
        },
        0 <= i % n < n,
{
    lemma_fundamental_div_mod(i, n);
    let q = i / n;
    let r = i % n;
    assert(0 <= r < n) by {
        vstd::arithmetic::div_mod::lemma_mod_pos_bound(i, n);
    }
    if r + 1 == n {
        assert(i + 1 == (q + 1) * n + 0) by (nonlinear_arith)
            requires
                i == n * q + r,
                r + 1 == n,
        ;
        lemma_fundamental_div_mod_converse_mod(i + 1, n, q + 1, 0);
    } else {
        assert(i + 1 == q * n + (r + 1)) by (nonlinear_arith)
            requires
                i == n * q + r,
        ;
        lemma_fundamental_div_mod_converse_mod(i + 1, n, q, r + 1);
    }
}

/// The instructions of a walk, repeating.
pub fn parse_instruction(inst: &str) -> (r: InstStream)
    ensures
        r.insts() == inst@,
{
    InstStream { insts: chars_of(inst) }
}

/// The number of instructions the walk from `init_v` takes to first stand on a
/// node ending in `Z`.
pub fn inst_count(map: &DesertMap, insts: &InstStream, init_v: &str) -> (r: u64)
    requires
        map.wf(),
        insts.insts().len() > 0,
        reaches_z(map.view_entries(), insts.insts(), init_v@),
    ensures
        first_z_at(map.view_entries(), insts.insts(), init_v@, r as nat),
{
    let ghost es = map.view_entries();
    let ghost is = insts.insts();
    let ghost init = init_v@;
    let ghost big_k = choose|k: nat| k <= u64::MAX && #[trigger] first_z_at(es, is, init, k);
    let n = insts.insts.len();
    let mut node: String = init_v.to_owned();
    let mut count: u64 = 0;
    let mut idx: usize = 0;
    loop
        invariant
            map.wf(),
            es == map.view_entries(),
            is == insts.insts(),
            init == init_v@,
            n == is.len(),
            n > 0,
            big_k <= u64::MAX,
            first_z_at(es, is, init, big_k),
            count < big_k,
            idx == (count as int) % (n as int),
            walk(es, is, init, count as nat) == Some(node@),
        decreases big_k - count,
    {
        proof {
            lemma_mod_succ(count as int, n as int);
            let next = (count + 1) as nat;
            assert(walk(es, is, init, next) is Some);
        }
        let c = insts.insts[idx];
        let t = match map.get(&node) {
            Some(t) => t,
            None => {
                proof {
                    assert(false);
                }
                return 0;
            },
        };
        let next = if c == 'L' {
            t.0.clone()
        } else if c == 'R' {
            t.1.clone()
        } else {
            proof {
                assert(false);
            }
            return 0;
        };
        proof {
            assert(walk(es, is, init, (count + 1) as nat) == Some(next@));
        }
        count = count + 1;
        idx = if idx == n - 1 {
            0
        } else {
            idx + 1
        };
        node = next;
        if ends_with_z(&node) {
            proof {
                assert(walk(es, is, init, count as nat) == Some(node@));
                assert(ends_with_char(node@, 'Z'));
                if count < big_k {
                    assert(1 <= count < big_k);
                    assert(walk(es, is, init, count as nat) is Some && !ends_with_char(walk(es, is, init, count as nat)->0, 'Z'));
                }
                assert(count == big_k);
            }
            return count;
        }
        proof {
            if count == big_k {
                assert(walk(es, is, init, count as nat) is Some);
            }
        }
    }
}

/// Splits a puzzle into its instruction line and the map in the lines after the
/// blank one; none for text without lines.
pub fn parse_all(s: &str) -> (r: Option<(DesertMap, InstStream)>)
    requires
        all_pair_lines(map_lines(lines_of(s@))),
    ensures
        r is None <==> lines_of(s@).len() == 0,
        r matches Some(p) ==> {
            &&& p.0.wf()
            &&& p.0.view_entries() == map_of_text(s@)
            &&& p.1.insts() == lines_of(s@)[0]
        },
{
    let rows = split_rows(s);
    proof {
        lemma_rows_of(rows@);
    }
    if rows.len() == 0 {
        return None;
    }
    let stream = InstStream { insts: string_chars(&rows[0]) };
    let from: usize = if rows.len() >= 2 {
        2
    } else {
        rows.len()
    };
    proof {
        let ls = rows_of(rows@);
        if rows.len() >= 2 {
            assert(ls.subrange(from as int, ls.len() as int) =~= map_lines(ls));
        } else {
            assert(ls.subrange(from as int, ls.len() as int) =~= map_lines(ls));
        }
    }
    let m = desert_from_rows(&rows, from);
    Some((m, stream))
}

fn string_chars(cs: &Vec<char>) -> (r: Vec<char>)
    ensures
        r@ == cs@,
{
    let mut r: Vec<char> = Vec::new();
    let mut i: usize = 0;
    while i < cs.len()
        invariant
            0 <= i <= cs@.len(),
            r@ == cs@.subrange(0, i as int),
        decreases cs@.len() - i,
    {
        r.push(cs[i]);
        i = i + 1;
        assert(r@ =~= cs@.subrange(0, i as int));
    }
    r
}

/// The number of instructions the walk from `init_v` takes to a node ending in
/// `Z`, on the map and instructions of the puzzle text `s`.
pub fn execute_all(s: &str, init_v: &str) -> (r: u64)
    requires
        lines_of(s@).len() > 0,
        lines_of(s@)[0].len() > 0,
        all_pair_lines(map_lines(lines_of(s@))),
        reaches_z(map_of_text(s@), lines_of(s@)[0], init_v@),
    ensures
        first_z_at(map_of_text(s@), lines_of(s@)[0], init_v@, r as nat),
{
    match parse_all(s) {
        Some((dm, inst)) => inst_count(&dm, &inst, init_v),
        None => {
            proof {
                assert(false);
            }
            0
        },
    }
}

/// The labels of the map that end in `A`, in the map's order.
pub fn find_all_as(m: &DesertMap) -> (r: Vec<State>)
    ensures
        r@.map_values(|k: State| k@) == a_keys(m.view_entries(), m.view_entries().len() as int),
{
    let ghost es = m.view_entries();
    let mut v: Vec<State> = Vec::new();
    let mut i: usize = 0;
    while i < m.entries.len()
        invariant
            es == m.view_entries(),
            es.len() == m.entries@.len(),
            0 <= i <= es.len(),
            v@.map_values(|k: State| k@) == a_keys(es, i as int),
        decreases es.len() - i,
    {
        let k = &m.entries[i].0;
        if ends_with_a(k) {
            v.push(k.clone());
            assert(v@.map_values(|k: State| k@) =~= a_keys(es, i as int).push(es[i as int].0));
        }
        i = i + 1;
    }
    v
}

/// The least common multiple of the walk lengths from every label ending in `A`.
fn calculate_p2(m: &DesertMap, insts: &InstStream) -> (r: u64)
    requires
        m.wf(),
        insts.insts().len() > 0,
        all_reach_z(m.view_entries(), insts.insts(), a_keys(m.view_entries(), m.view_entries().len() as int)),
        exists|big: int|
            0 < big <= u64::MAX && #[trigger] multiple_of_all(
                m.view_entries(),
                insts.insts(),
                a_keys(m.view_entries(), m.view_entries().len() as int),
                big,
            ),
    ensures
        r > 0,
        multiple_of_all(m.view_entries(), insts.insts(), a_keys(m.view_entries(), m.view_entries().len() as int), r as int),
        forall|big: int|
            big > 0 && #[trigger] multiple_of_all(
                m.view_entries(),
                insts.insts(),
                a_keys(m.view_entries(), m.view_entries().len() as int),
                big,
            ) ==> divides(r as int, big),
{
    let ghost es = m.view_entries();
    let ghost is = insts.insts();
    let start_with_as = find_all_as(m);
    let ghost starts = a_keys(es, es.len() as int);
    let ghost big = choose|big: int| 0 < big <= u64::MAX && #[trigger] multiple_of_all(es, is, starts, big);
    let mut lcm: u64 = 1;
    let mut i: usize = 0;
    while i < start_with_as.len()
        invariant
            m.wf(),
            es == m.view_entries(),
            is == insts.insts(),
            is.len() > 0,
            starts == a_keys(es, es.len() as int),
            start_with_as@.map_values(|k: State| k@) == starts,
            all_reach_z(es, is, starts),
            0 < big <= u64::MAX,
            multiple_of_all(es, is, starts, big),
            0 <= i <= starts.len(),
            lcm > 0,
            divides(lcm as int, big),
            multiple_of_all(es, is, starts.take(i as int), lcm as int),
            forall|b: int|
                b > 0 && #[trigger] multiple_of_all(es, is, starts.take(i as int), b) ==> divides(lcm as int, b),
        decreases starts.len() - i,
    {
        let a = &start_with_as[i];
        proof {
            assert(starts[i as int] == a@);
            assert(reaches_z(es, is, starts[i as int]));
        }
        let c = inst_count(m, insts, a.as_str());
        proof {
            assert(first_z_at(es, is, starts[i as int], c as nat));
            assert(divides(c as int, big));
            assert(divides(lcm as int, big));
        }
        let next = lcm_u64(lcm, c);
        proof {
            let t0 = starts.take(i as int);
            let t1 = starts.take(i + 1);
            assert forall|j: int, k: nat| 0 <= j < t1.len() && #[trigger] first_z_at(es, is, t1[j], k) implies divides(k as int, next as int) by {
                if j < i {
                    assert(t1[j] == t0[j]);
                    assert(divides(k as int, lcm as int));
                    lemma_divides_trans(k as int, lcm as int, next as int);
                } else {
                    lemma_first_z_unique(es, is, starts[i as int], k, c as nat);
                }
            }
            assert forall|b: int| b > 0 && #[trigger] multiple_of_all(es, is, t1, b) implies divides(next as int, b) by {
                assert forall|j: int, k: nat| 0 <= j < t0.len() && #[trigger] first_z_at(es, is, t0[j], k) implies divides(k as int, b) by {
                    assert(t1[j] == t0[j]);
                }
                assert(multiple_of_all(es, is, t0, b));
                assert(divides(lcm as int, b));
                assert(t1[i as int] == starts[i as int]);
                assert(divides(c as int, b));
            }
            lemma_divides_trans(next as int, big, big);
        }
        lcm = next;
        i = i + 1;
    }
    proof {
        assert(starts.take(i as int) =~= starts);
    }
    lcm
}

/// The least common multiple of the numbers of instructions that the walks from
/// the labels ending in `A` take to first stand on a node ending in `Z`.
pub fn execute_all_p2(s: &str) -> (r: u64)
    requires
        lines_of(s@).len() > 0,
        lines_of(s@)[0].len() > 0,
        all_pair_lines(map_lines(lines_of(s@))),
        all_reach_z(map_of_text(s@), lines_of(s@)[0], a_keys(map_of_text(s@), map_of_text(s@).len() as int)),
        exists|big: int|
            0 < big <= u64::MAX && #[trigger] multiple_of_all(
                map_of_text(s@),
                lines_of(s@)[0],
                a_keys(map_of_text(s@), map_of_text(s@).len() as int),
                big,
            ),
    ensures
        r > 0,
        multiple_of_all(map_of_text(s@), lines_of(s@)[0], a_keys(map_of_text(s@), map_of_text(s@).len() as int), r as int),
        forall|big: int|
            big > 0 && #[trigger] multiple_of_all(
                map_of_text(s@),
                lines_of(s@)[0],
                a_keys(map_of_text(s@), map_of_text(s@).len() as int),
                big,
            ) ==> divides(r as int, big),
{
    match parse_all(s) {
        Some((dm, inst)) => calculate_p2(&dm, &inst),
        None => {
            proof {
                assert(false);
            }
            1
        },
    }
}

proof fn lemma_walk_stays_none(es: Seq<EntryView>, insts: Seq<char>, init: Seq<char>, a: nat, b: nat)
    requires
        a <= b,
        walk(es, insts, init, a) is None,
    ensures
        walk(es, insts, init, b) is None,
    decreases b,
{
    if a < b {
        lemma_walk_stays_none(es, insts, init, a, (b - 1) as nat);
    }
}

/// The number of instructions the walk from `init_v` takes to first stand on a
/// node ending in `Z`, if that is at most `limit`; none if it is not, or if the
/// walk meets a missing label or an instruction other than `L` and `R` first.
pub fn inst_count_within(map: &DesertMap, insts: &InstStream, init_v: &str, limit: u64) -> (r: Option<u64>)
    requires
        map.wf(),
    ensures
        insts.insts().len() == 0 ==> r is None,
        r matches Some(k) ==> k <= limit && first_z_at(map.view_entries(), insts.insts(), init_v@, k as nat),
        r is None && insts.insts().len() > 0 ==> forall|k: nat|
            k <= limit ==> !#[trigger] first_z_at(map.view_entries(), insts.insts(), init_v@, k),
{
    let ghost es = map.view_entries();
    let ghost is = insts.insts();
    let ghost init = init_v@;
    let n = insts.insts.len();
    if n == 0 {
        return None;
    }
    let mut node: String = init_v.to_owned();
    let mut count: u64 = 0;
    let mut idx: usize = 0;
    while count < limit
        invariant
            map.wf(),
            es == map.view_entries(),
            is == insts.insts(),
            init == init_v@,
            n == is.len(),
            n > 0,
            count <= limit,
            idx == (count as int) % (n as int),
            walk(es, is, init, count as nat) == Some(node@),
            forall|j: nat| 1 <= j <= count ==> #[trigger] walk(es, is, init, j) is Some && !ends_with_char(walk(es, is, init, j)->0, 'Z'),
        decreases limit - count,
    {
        proof {
            lemma_mod_succ(count as int, n as int);
        }
        let c = insts.insts[idx];
        let t = match map.get(&node) {
            Some(t) => t,
            None => {
                proof {
                    assert(walk(es, is, init, (count + 1) as nat) is None);
                    assert forall|k: nat| k <= limit implies !#[trigger] first_z_at(es, is, init, k) by {
                        if k > count {
                            lemma_walk_stays_none(es, is, init, (count + 1) as nat, k);
                        } else if k >= 1 {
                            assert(walk(es, is, init, k) is Some);
                        }
                    }
                }
                return None;
            },
        };
        let next = if c == 'L' {
            t.0.clone()
        } else if c == 'R' {
            t.1.clone()
        } else {
            proof {
                assert(walk(es, is, init, (count + 1) as nat) is None);
                assert forall|k: nat| k <= limit implies !#[trigger] first_z_at(es, is, init, k) by {
                    if k > count {
                        lemma_walk_stays_none(es, is, init, (count + 1) as nat, k);
                    } else if k >= 1 {
                        assert(walk(es, is, init, k) is Some);
                    }
                }
            }
            return None;
        };
        proof {
            assert(walk(es, is, init, (count + 1) as nat) == Some(next@));
        }
        count = count + 1;
        idx = if idx == n - 1 {
            0
        } else {
            idx + 1
        };
        node = next;
        if ends_with_z(&node) {
            return Some(count);
        }
    }
    proof {
        assert forall|k: nat| k <= limit implies !#[trigger] first_z_at(es, is, init, k) by {
            if k >= 1 {
                assert(walk(es, is, init, k) is Some);
            }
        }
    }
    None
}

/// The walk of `execute_all`, within `limit` instructions; none for text without
/// lines or a walk that does not reach a node ending in `Z` within the limit.
pub fn execute_all_within(s: &str, init_v: &str, limit: u64) -> (r: Option<u64>)
    requires
        all_pair_lines(map_lines(lines_of(s@))),
    ensures
        lines_of(s@).len() == 0 ==> r is None,
        r matches Some(k) ==> k <= limit && first_z_at(map_of_text(s@), lines_of(s@)[0], init_v@, k as nat),
        r is None && lines_of(s@).len() > 0 && lines_of(s@)[0].len() > 0 ==> forall|k: nat|
            k <= limit ==> !#[trigger] first_z_at(map_of_text(s@), lines_of(s@)[0], init_v@, k),
{
    match parse_all(s) {
        Some((dm, inst)) => inst_count_within(&dm, &inst, init_v, limit),
        None => None,
    }
}

} // verus!
