//! Sales breakdown ("OLAP") rows: grouping by dish category and rendering a
//! category as a fixed-width table.

use vstd::prelude::*;
use vstd::multiset::Multiset;
use crate::iiko::Server;
use crate::text::{chars_of, string_of, push_chars, push_str, push_repeat, repeat_char, decimal, decimal_of, lemma_decimal_len_u32};

verus! {

// ---------------------------------------------------------------------------
// Words and greedy wrapping

/// Whether `c` is white space in the sense of Unicode's `White_Space` property,
/// which is what `char::is_whitespace` tests.
pub open spec fn is_space(c: char) -> bool {
    let x = c as u32;
    (0x9 <= x <= 0xD) || x == 0x20 || x == 0x85 || x == 0xA0 || x == 0x1680
        || (0x2000 <= x <= 0x200A) || x == 0x2028 || x == 0x2029 || x == 0x202F
        || x == 0x205F || x == 0x3000
}

fn is_space_exec(c: char) -> (r: bool)
    ensures
        r == is_space(c),
{
    let x = c as u32;
    (0x9 <= x && x <= 0xD) || x == 0x20 || x == 0x85 || x == 0xA0 || x == 0x1680
        || (0x2000 <= x && x <= 0x200A) || x == 0x2028 || x == 0x2029 || x == 0x202F
        || x == 0x205F || x == 0x3000
}

/// The words found in `s` so far, and the word being read at its end.
pub open spec fn split_state(s: Seq<char>) -> (Seq<Seq<char>>, Seq<char>)
    decreases s.len(),
{
    if s.len() == 0 {
        (Seq::empty(), Seq::empty())
    } else {
        let (ws, cur) = split_state(s.drop_last());
        let c = s.last();
        if is_space(c) {
            if cur.len() > 0 { (ws.push(cur), Seq::empty()) } else { (ws, Seq::empty()) }
        } else {
            (ws, cur.push(c))
        }
    }
}

/// The maximal runs of non-space characters of `s`, in order.
pub open spec fn words(s: Seq<char>) -> Seq<Seq<char>> {
    let (ws, cur) = split_state(s);
    if cur.len() > 0 { ws.push(cur) } else { ws }
}

/// The finished lines and the line being filled after greedily placing `ws`
/// into lines of at most `width` characters.
pub open spec fn wrap_state(ws: Seq<Seq<char>>, width: nat) -> (Seq<Seq<char>>, Seq<char>)
    decreases ws.len(),
{
    if ws.len() == 0 {
        (Seq::empty(), Seq::empty())
    } else {
        let (lines, cur) = wrap_state(ws.drop_last(), width);
        let w = ws.last();
        if cur.len() > 0 && cur.len() + 1 + w.len() > width {
            (lines.push(cur), w)
        } else if cur.len() > 0 {
            (lines, cur + seq![' '] + w)
        } else {
            (lines, w)
        }
    }
}

/// The words of `text` wrapped greedily into lines of at most `width` characters;
/// a word is never split, so a word longer than `width` stands on a line of its own.
pub open spec fn wrap(text: Seq<char>, width: nat) -> Seq<Seq<char>> {
    let (lines, cur) = wrap_state(words(text), width);
    if cur.len() > 0 { lines.push(cur) } else { lines }
}

pub open spec fn chars_view(v: Seq<Vec<char>>) -> Seq<Seq<char>> {
    v.map_values(|x: Vec<char>| x@)
}

pub open spec fn strings_view(v: Seq<String>) -> Seq<Seq<char>> {
    v.map_values(|x: String| x@)
}

/// The words of `text`, in order.
pub fn split_words(text: &Vec<char>) -> (r: Vec<Vec<char>>)
    ensures
        chars_view(r@) == words(text@),
{
    let mut ws: Vec<Vec<char>> = Vec::new();
    let mut cur: Vec<char> = Vec::new();
    let mut i: usize = 0;
    while i < text.len()
        invariant
            i <= text@.len(),
            (chars_view(ws@), cur@) == split_state(text@.subrange(0, i as int)),
        decreases text@.len() - i,
    {
        let c = text[i];
        proof {
            assert(text@.subrange(0, i + 1).drop_last() =~= text@.subrange(0, i as int));
        }
        if is_space_exec(c) {
            if cur.len() > 0 {
                ws.push(cur);
                cur = Vec::new();
                proof {
                    assert(chars_view(ws@) =~= split_state(text@.subrange(0, i + 1)).0);
                }
            }
        } else {
            cur.push(c);
        }
        i = i + 1;
    }
    proof {
        assert(text@.subrange(0, text@.len() as int) =~= text@);
    }
    if cur.len() > 0 {
        ws.push(cur);
        proof {
            assert(chars_view(ws@) =~= words(text@));
        }
    }
    ws
}

/// The words of `text` wrapped greedily into lines of at most `width` characters.
pub fn wrap_chars(text: &Vec<char>, width: usize) -> (r: Vec<Vec<char>>)
    ensures
        chars_view(r@) == wrap(text@, width as nat),
{
    let ws = split_words(text);
    let ghost wv = words(text@);
    let mut lines: Vec<Vec<char>> = Vec::new();
    let mut cur: Vec<char> = Vec::new();
    let mut i: usize = 0;
    while i < ws.len()
        invariant
            i <= ws@.len(),
            chars_view(ws@) == wv,
            wv == words(text@),
            (chars_view(lines@), cur@) == wrap_state(wv.subrange(0, i as int), width as nat),
        decreases ws@.len() - i,
    {
        proof {
            assert(wv.subrange(0, i + 1).drop_last() =~= wv.subrange(0, i as int));
            assert(wv[i as int] == ws@[i as int]@);
        }
        let w = &ws[i];
        if cur.len() > 0 && cur.len() as u128 + 1 + w.len() as u128 > width as u128 {
            lines.push(cur);
            cur = Vec::new();
            push_chars(&mut cur, w);
            proof {
                assert(chars_view(lines@) =~= wrap_state(wv.subrange(0, i + 1), width as nat).0);
            }
        } else if cur.len() > 0 {
            cur.push(' ');
            push_chars(&mut cur, w);
        } else {
            push_chars(&mut cur, w);
        }
        i = i + 1;
    }
    proof {
        assert(wv.subrange(0, wv.len() as int) =~= wv);
    }
    if cur.len() > 0 {
        lines.push(cur);
        proof {
            assert(chars_view(lines@) =~= wrap(text@, width as nat));
        }
    }
    lines
}

/// The words of `text` wrapped greedily into lines of at most `width` characters.
pub fn wrap_text(text: &str, width: usize) -> (r: Vec<String>)
    ensures
        strings_view(r@) == wrap(text@, width as nat),
{
    let cs = chars_of(text);
    let lines = wrap_chars(&cs, width);
    let mut r: Vec<String> = Vec::new();
    let mut i: usize = 0;
    while i < lines.len()
        invariant
            i <= lines@.len(),
            strings_view(r@) == chars_view(lines@).subrange(0, i as int),
        decreases lines@.len() - i,
    {
        let s = string_of(&lines[i]);
        let ghost before = r@;
        r.push(s);
        proof {
            assert(r@ == before.push(s));
            assert(strings_view(r@) =~= strings_view(before).push(s@));
            assert(chars_view(lines@).subrange(0, i + 1) =~= chars_view(lines@).subrange(0, i as int).push(lines@[i as int]@));
        }
        i = i + 1;
    }
    proof {
        assert(chars_view(lines@).subrange(0, lines@.len() as int) =~= chars_view(lines@));
    }
    r
}

// ---------------------------------------------------------------------------
// Ordering by guest count

/// One dish of a category: the discounted sales amount as the server wrote it,
/// the dish name, and the number of guests who ordered it.
#[derive(Debug)]
pub struct OlapElement {
    pub dish_discount_sum: String,
    pub dish_name: String,
    pub guest_num: u32,
}

pub open spec fn guests_of(es: Seq<OlapElement>) -> Seq<u32> {
    es.map_values(|e: OlapElement| e.guest_num)
}

/// `s` with index `i` placed after every index whose guest count is at least that of `i`.
pub open spec fn insert_desc(s: Seq<usize>, i: usize, g: Seq<u32>) -> Seq<usize>
    decreases s.len(),
{
    if s.len() == 0 {
        seq![i]
    } else if g[s.last() as int] >= g[i as int] {
        s.push(i)
    } else {
        insert_desc(s.drop_last(), i, g).push(s.last())
    }
}

/// The indices `0..n` ordered by guest count, largest first; equal counts keep
/// the order in which they were given.
pub open spec fn order_desc(g: Seq<u32>, n: nat) -> Seq<usize>
    decreases n,
{
    if n == 0 {
        Seq::empty()
    } else {
        insert_desc(order_desc(g, (n - 1) as nat), (n - 1) as usize, g)
    }
}

pub open spec fn sorted_desc(s: Seq<usize>, g: Seq<u32>) -> bool {
    forall|a: int, b: int| 0 <= a < b < s.len() ==> g[s[a] as int] >= g[s[b] as int]
}

proof fn lemma_insert_desc(s: Seq<usize>, i: usize, g: Seq<u32>)
    requires
        sorted_desc(s, g),
    ensures
        insert_desc(s, i, g).len() == s.len() + 1,
        insert_desc(s, i, g).to_multiset() == s.to_multiset().insert(i),
        sorted_desc(insert_desc(s, i, g), g),
    decreases s.len(),
{
    let r = insert_desc(s, i, g);
    if s.len() == 0 {
        assert(r.to_multiset() == s.to_multiset().insert(i)) by {
            assert(s =~= Seq::<usize>::empty());
            s.to_multiset_ensures();
            r.to_multiset_ensures();
            assert(r =~= Seq::<usize>::empty().push(i));
        }
    } else if g[s.last() as int] >= g[i as int] {
        s.to_multiset_ensures();
    } else {
        let d = s.drop_last();
        assert(sorted_desc(d, g));
        lemma_insert_desc(d, i, g);
        let q = insert_desc(d, i, g);
        assert(s =~= d.push(s.last()));
        d.to_multiset_ensures();
        q.to_multiset_ensures();
        s.to_multiset_ensures();
        assert forall|x: usize| #[trigger] q.contains(x) implies g[x as int] >= g[s.last() as int] by {
            q.to_multiset_ensures();
            if x != i {
                assert(q.to_multiset().count(x) > 0);
                assert(d.to_multiset().count(x) > 0);
                d.to_multiset_ensures();
                let k = choose|k: int| 0 <= k < d.len() && d[k] == x;
                assert(g[s[k] as int] >= g[s[s.len() - 1] as int]);
            }
        }
        assert forall|a: int, b: int| 0 <= a < b < r.len() implies g[r[a] as int] >= g[r[b] as int] by {
            if b == r.len() - 1 {
                assert(q.contains(q[a]));
            }
        }
        assert(r.to_multiset() =~= s.to_multiset().insert(i));
    }
}

proof fn lemma_order_desc(g: Seq<u32>, n: nat)
    ensures
        order_desc(g, n).len() == n,
        sorted_desc(order_desc(g, n), g),
        forall|k: int| 0 <= k < n ==> #[trigger] order_desc(g, n)[k] < n,
    decreases n,
{
    if n > 0 {
        let m = (n - 1) as nat;
        lemma_order_desc(g, m);
        let s = order_desc(g, m);
        lemma_insert_desc(s, m as usize, g);
        let r = order_desc(g, n);
        assert forall|k: int| 0 <= k < n implies #[trigger] r[k] < n by {
            r.to_multiset_ensures();
            s.to_multiset_ensures();
            assert(r.to_multiset().count(r[k]) > 0);
            if r[k] != m as usize {
                assert(s.to_multiset().count(r[k]) > 0);
                let j = choose|j: int| 0 <= j < s.len() && s[j] == r[k];
            }
        }
    }
}

pub open spec fn stable(s: Seq<usize>, g: Seq<u32>) -> bool {
    forall|a: int, b: int| 0 <= a < b < s.len() && g[s[a] as int] == g[s[b] as int] ==> s[a] < s[b]
}

proof fn lemma_insert_desc_stable(s: Seq<usize>, i: usize, g: Seq<u32>)
    requires
        sorted_desc(s, g),
        stable(s, g),
        forall|k: int| 0 <= k < s.len() ==> #[trigger] s[k] < i,
    ensures
        stable(insert_desc(s, i, g), g),
    decreases s.len(),
{
    lemma_insert_desc(s, i, g);
    let r = insert_desc(s, i, g);
    if s.len() > 0 && g[s.last() as int] < g[i as int] {
        let d = s.drop_last();
        assert(sorted_desc(d, g));
        lemma_insert_desc_stable(d, i, g);
        lemma_insert_desc(d, i, g);
        let q = insert_desc(d, i, g);
        assert forall|a: int, b: int| 0 <= a < b < r.len() && g[r[a] as int] == g[r[b] as int] implies r[a] < r[b] by {
            if b == r.len() - 1 {
                let x = q[a];
                q.to_multiset_ensures();
                d.to_multiset_ensures();
                assert(q.to_multiset().count(x) > 0);
                if x != i {
                    assert(d.to_multiset().count(x) > 0);
                    let k = choose|k: int| 0 <= k < d.len() && d[k] == x;
                    assert(s[k] == x);
                }
            }
        }
    }
}

proof fn lemma_order_complete(g: Seq<u32>, n: nat)
    requires
        n <= usize::MAX + 1,
    ensures
        stable(order_desc(g, n), g),
        forall|j: usize| j < n ==> #[trigger] order_desc(g, n).contains(j),
    decreases n,
{
    if n > 0 {
        let m = (n - 1) as nat;
        lemma_order_complete(g, m);
        lemma_order_desc(g, m);
        let s = order_desc(g, m);
        lemma_insert_desc_stable(s, m as usize, g);
        lemma_insert_desc(s, m as usize, g);
        let r = order_desc(g, n);
        r.to_multiset_ensures();
        s.to_multiset_ensures();
        assert forall|j: usize| j < n implies #[trigger] r.contains(j) by {
            if j < m {
                assert(s.contains(j));
                assert(s.to_multiset().count(j) > 0);
            }
            assert(r.to_multiset().count(j) > 0);
        }
    }
}

/// How a table picks its rows: every element of `es` has a rank in the order by
/// guest count (largest first, equal counts in the order given), the shown rows
/// are the first `MAX_ROWS` of that order, and no row left out has more guests
/// than any shown row.
pub proof fn lemma_shown_rows_order(es: Seq<OlapElement>)
    requires
        es.len() <= usize::MAX,
    ensures
        ({
            let g = guests_of(es);
            let o = order_desc(g, es.len());
            &&& o.len() == es.len()
            &&& forall|j: usize| j < es.len() ==> #[trigger] o.contains(j)
            &&& forall|a: int, b: int| 0 <= a < b < o.len() ==> es[o[a] as int].guest_num >= es[o[b] as int].guest_num
            &&& forall|a: int, b: int| 0 <= a < b < o.len() && es[o[a] as int].guest_num == es[o[b] as int].guest_num
                ==> o[a] < o[b]
            &&& shown_rows(es).len() == min_nat(MAX_ROWS as nat, es.len())
            &&& forall|a: int| 0 <= a < shown_rows(es).len() ==> #[trigger] shown_rows(es)[a] == es[o[a] as int]
        }),
{
    let g = guests_of(es);
    lemma_order_desc(g, es.len());
    lemma_order_complete(g, es.len());
    let o = order_desc(g, es.len());
    assert forall|a: int, b: int| 0 <= a < b < o.len() implies es[o[a] as int].guest_num >= es[o[b] as int].guest_num by {
        assert(g[o[a] as int] >= g[o[b] as int]);
    }
    assert forall|a: int, b: int| 0 <= a < b < o.len() && es[o[a] as int].guest_num == es[o[b] as int].guest_num
        implies o[a] < o[b] by {
        assert(g[o[a] as int] == es[o[a] as int].guest_num);
        assert(g[o[b] as int] == es[o[b] as int].guest_num);
    }
}

/// The indices of `es` ordered by guest count, largest first; equal counts keep
/// the order in which they were given.
pub fn order_by_guests(es: &Vec<OlapElement>) -> (r: Vec<usize>)
    ensures
        r@ == order_desc(guests_of(es@), es@.len()),
{
    let ghost g = guests_of(es@);
    let mut r: Vec<usize> = Vec::new();
    let mut i: usize = 0;
    while i < es.len()
        invariant
            i <= es@.len(),
            g == guests_of(es@),
            r@ == order_desc(g, i as nat),
        decreases es@.len() - i,
    {
        proof {
            lemma_order_desc(g, i as nat);
        }
        let gi = es[i].guest_num;
        let mut j: usize = r.len();
        proof {
            assert(r@.subrange(0, j as int) =~= r@);
            assert(insert_desc(r@, i, g) + r@.subrange(j as int, j as int) =~= insert_desc(r@, i, g));
        }
        while j > 0 && es[r[j - 1]].guest_num < gi
            invariant
                j <= r@.len(),
                r@.len() == i,
                i < es@.len(),
                g == guests_of(es@),
                gi == g[i as int],
                forall|k: int| 0 <= k < r@.len() ==> #[trigger] r@[k] < i,
                insert_desc(r@, i, g) == insert_desc(r@.subrange(0, j as int), i, g) + r@.subrange(
                    j as int,
                    r@.len() as int,
                ),
            decreases j,
        {
            proof {
                let a = r@.subrange(0, j as int);
                assert(a.drop_last() =~= r@.subrange(0, j - 1));
                assert(a.last() == r@[j - 1]);
                assert(r@.subrange(j - 1, r@.len() as int) =~= seq![r@[j - 1]] + r@.subrange(
                    j as int,
                    r@.len() as int,
                ));
                assert(insert_desc(r@.subrange(0, j - 1), i, g).push(r@[j - 1]) + r@.subrange(
                    j as int,
                    r@.len() as int,
                ) =~= insert_desc(r@.subrange(0, j - 1), i, g) + r@.subrange(
                    j - 1,
                    r@.len() as int,
                ));
            }
            j = j - 1;
        }
        proof {
            let a = r@.subrange(0, j as int);
            if j > 0 {
                assert(a.last() == r@[j - 1]);
            }
            assert(insert_desc(r@, i, g) =~= r@.insert(j as int, i));
        }
        r.insert(j, i);
        i = i + 1;
    }
    r
}

// ---------------------------------------------------------------------------
// Table rendering

/// The most rows that a rendered table shows.
pub const MAX_ROWS: usize = 20;

/// The widest that the name column grows.
pub const NAME_WIDTH_CAP: usize = 15;

pub open spec fn name_header() -> Seq<char> {
    "Название"@
}

pub open spec fn sum_header() -> Seq<char> {
    "Сумма"@
}

pub open spec fn count_header() -> Seq<char> {
    "Заказы"@
}

pub open spec fn max_nat(a: nat, b: nat) -> nat {
    if a >= b { a } else { b }
}

pub open spec fn min_nat(a: nat, b: nat) -> nat {
    if a <= b { a } else { b }
}

/// The rows that a table of `es` shows: the first `MAX_ROWS` in order of guest count.
pub open spec fn shown_rows(es: Seq<OlapElement>) -> Seq<OlapElement> {
    let order = order_desc(guests_of(es), es.len());
    order.take(min_nat(MAX_ROWS as nat, es.len()) as int).map_values(|k: usize| es[k as int])
}

/// The width of the name column for rows `ds`.
pub open spec fn name_width(ds: Seq<OlapElement>) -> nat
    decreases ds.len(),
{
    if ds.len() == 0 {
        name_header().len()
    } else {
        max_nat(name_width(ds.drop_last()), min_nat(ds.last().dish_name@.len(), NAME_WIDTH_CAP as nat))
    }
}

/// The width of the amount column for rows `ds`.
pub open spec fn sum_width(ds: Seq<OlapElement>) -> nat
    decreases ds.len(),
{
    if ds.len() == 0 {
        sum_header().len()
    } else {
        max_nat(sum_width(ds.drop_last()), ds.last().dish_discount_sum@.len())
    }
}

/// The width of the guest-count column for rows `ds`.
pub open spec fn count_width(ds: Seq<OlapElement>) -> nat
    decreases ds.len(),
{
    if ds.len() == 0 {
        count_header().len()
    } else {
        max_nat(count_width(ds.drop_last()), decimal(ds.last().guest_num as nat).len())
    }
}

/// Every column is at least as wide as its header.
pub proof fn lemma_widths_cover_headers(ds: Seq<OlapElement>)
    ensures
        name_width(ds) >= name_header().len(),
        sum_width(ds) >= sum_header().len(),
        count_width(ds) >= count_header().len(),
    decreases ds.len(),
{
    if ds.len() > 0 {
        lemma_widths_cover_headers(ds.drop_last());
    }
}

/// Column widths, inner text only.
struct Widths {
    name: usize,
    sum: usize,
    count: usize,
}

pub open spec fn widths_of(ds: Seq<OlapElement>) -> (nat, nat, nat) {
    (name_width(ds), sum_width(ds), count_width(ds))
}

/// A horizontal border line: each column is its width plus two wide.
pub open spec fn border(w: (nat, nat, nat), l: char, m: char, s: char, r: char) -> Seq<char> {
    seq![l] + repeat_char(m, w.0 + 2) + seq![s] + repeat_char(m, w.1 + 2) + seq![s] + repeat_char(
        m,
        w.2 + 2,
    ) + seq![r] + seq!['\n']
}

/// `h` centred in a column of inner width `w`, followed by the column's right edge.
pub open spec fn centred(h: Seq<char>, w: nat) -> Seq<char> {
    let total = w + 2 - h.len();
    let left = total / 2;
    repeat_char(' ', left as nat) + h + repeat_char(' ', (total - left) as nat) + seq!['│']
}

pub open spec fn header_line(w: (nat, nat, nat)) -> Seq<char> {
    seq!['│'] + centred(name_header(), w.0) + centred(sum_header(), w.1) + centred(
        count_header(),
        w.2,
    ) + seq!['\n']
}

/// How many spaces follow a text of `len` characters in a column of inner width `w`.
pub open spec fn pad(w: nat, len: nat) -> nat {
    if len <= w + 1 { (w + 1 - len) as nat } else { 0 }
}

/// A data cell: a space, the text, spaces up to the column width, the right edge.
pub open spec fn cell(text: Seq<char>, w: nat) -> Seq<char> {
    seq![' '] + text + repeat_char(' ', pad(w, text.len())) + seq!['│']
}

pub open spec fn row_line(name: Seq<char>, sum: Seq<char>, count: Seq<char>, w: (nat, nat, nat)) -> Seq<char> {
    seq!['│'] + cell(name, w.0) + cell(sum, w.1) + cell(count, w.2) + seq!['\n']
}

/// The first `k` lines of the row of `e`, whose name wraps into `lines`: the amount
/// and the count stand on the first line only.
pub open spec fn row_lines(e: OlapElement, lines: Seq<Seq<char>>, w: (nat, nat, nat), k: nat) -> Seq<char>
    decreases k,
{
    if k == 0 {
        Seq::empty()
    } else {
        let j = (k - 1) as nat;
        let first = j == 0;
        row_lines(e, lines, w, j) + row_line(
            lines[j as int],
            if first { e.dish_discount_sum@ } else { Seq::empty() },
            if first { decimal(e.guest_num as nat) } else { Seq::empty() },
            w,
        )
    }
}

/// All lines of the row of `e`.
pub open spec fn row_block(e: OlapElement, w: (nat, nat, nat)) -> Seq<char> {
    let lines = wrap(e.dish_name@, w.0);
    row_lines(e, lines, w, lines.len())
}

/// The rows of the first `n` of `ds`, with a separator after each but the last of `ds`.
pub open spec fn body(ds: Seq<OlapElement>, w: (nat, nat, nat), n: nat) -> Seq<char>
    decreases n,
{
    if n == 0 {
        Seq::empty()
    } else {
        let j = (n - 1) as nat;
        body(ds, w, j) + row_block(ds[j as int], w) + if n != ds.len() {
            border(w, '├', '─', '┼', '┤')
        } else {
            Seq::empty()
        }
    }
}

pub open spec fn fence() -> Seq<char> {
    "```\n"@
}

/// The table of rows `ds`, as a fenced block.
pub open spec fn table_of(ds: Seq<OlapElement>) -> Seq<char> {
    let w = widths_of(ds);
    fence() + border(w, '┌', '─', '┬', '┐') + header_line(w) + border(w, '├', '─', '┼', '┤') + body(
        ds,
        w,
        ds.len(),
    ) + border(w, '└', '─', '┴', '┘') + fence()
}

/// The table that shows the elements of one category.
pub open spec fn render(es: Seq<OlapElement>) -> Seq<char> {
    table_of(shown_rows(es))
}

/// Amount texts short enough that column arithmetic stays within `usize`.
pub open spec fn sums_fit(es: Seq<OlapElement>) -> bool {
    forall|i: int| 0 <= i < es.len() ==> #[trigger] es[i].dish_discount_sum@.len() + 4 <= usize::MAX
}

fn push_border(out: &mut Vec<char>, w: &Widths, l: char, m: char, s: char, r: char)
    requires
        w.name + 2 <= usize::MAX,
        w.sum + 2 <= usize::MAX,
        w.count + 2 <= usize::MAX,
    ensures
        final(out)@ == old(out)@ + border((w.name as nat, w.sum as nat, w.count as nat), l, m, s, r),
{
    out.push(l);
    push_repeat(out, m, w.name + 2);
    out.push(s);
    push_repeat(out, m, w.sum + 2);
    out.push(s);
    push_repeat(out, m, w.count + 2);
    out.push(r);
    out.push('\n');
    proof {
        let wn = (w.name as nat, w.sum as nat, w.count as nat);
        assert(final(out)@ =~= old(out)@ + border(wn, l, m, s, r));
    }
}

fn push_centred(out: &mut Vec<char>, h: &str, w: usize)
    requires
        h@.len() <= w,
        w + 2 <= usize::MAX,
    ensures
        final(out)@ == old(out)@ + centred(h@, w as nat),
{
    let total = w + 2 - h.unicode_len();
    let left = total / 2;
    push_repeat(out, ' ', left);
    push_str(out, h);
    push_repeat(out, ' ', total - left);
    out.push('│');
    assert(final(out)@ =~= old(out)@ + centred(h@, w as nat));
}

fn push_cell(out: &mut Vec<char>, text: &Vec<char>, w: usize)
    requires
        w + 2 <= usize::MAX,
    ensures
        final(out)@ == old(out)@ + cell(text@, w as nat),
{
    out.push(' ');
    push_chars(out, text);
    let n: usize = if text.len() <= w + 1 { w + 1 - text.len() } else { 0 };
    push_repeat(out, ' ', n);
    out.push('│');
    assert(final(out)@ =~= old(out)@ + cell(text@, w as nat));
}

fn push_row_block(out: &mut Vec<char>, e: &OlapElement, w: &Widths)
    requires
        w.name + 2 <= usize::MAX,
        w.sum + 2 <= usize::MAX,
        w.count + 2 <= usize::MAX,
    ensures
        final(out)@ == old(out)@ + row_block(*e, (w.name as nat, w.sum as nat, w.count as nat)),
{
    let ghost wn = (w.name as nat, w.sum as nat, w.count as nat);
    let name = chars_of(e.dish_name.as_str());
    let lines = wrap_chars(&name, w.name);
    let ghost lv = wrap(e.dish_name@, w.name as nat);
    let sum = chars_of(e.dish_discount_sum.as_str());
    let count = decimal_of(e.guest_num as u64);
    let empty: Vec<char> = Vec::new();
    let mut k: usize = 0;
    while k < lines.len()
        invariant
            k <= lines@.len(),
            chars_view(lines@) == lv,
            lv == wrap(e.dish_name@, w.name as nat),
            sum@ == e.dish_discount_sum@,
            count@ == decimal(e.guest_num as nat),
            empty@ == Seq::<char>::empty(),
            wn == (w.name as nat, w.sum as nat, w.count as nat),
            w.name + 2 <= usize::MAX,
            w.sum + 2 <= usize::MAX,
            w.count + 2 <= usize::MAX,
            out@ == old(out)@ + row_lines(*e, lv, wn, k as nat),
        decreases lines@.len() - k,
    {
        let ghost before = out@;
        out.push('│');
        push_cell(out, &lines[k], w.name);
        if k == 0 {
            push_cell(out, &sum, w.sum);
            push_cell(out, &count, w.count);
        } else {
            push_cell(out, &empty, w.sum);
            push_cell(out, &empty, w.count);
        }
        out.push('\n');
        proof {
            assert(lv[k as int] == lines@[k as int]@);
            let first = k == 0;
            assert(out@ =~= before + row_line(
                lv[k as int],
                if first { e.dish_discount_sum@ } else { Seq::empty() },
                if first { decimal(e.guest_num as nat) } else { Seq::empty() },
                wn,
            ));
            assert(row_lines(*e, lv, wn, (k + 1) as nat) == row_lines(*e, lv, wn, k as nat) + row_line(
                lv[k as int],
                if first { e.dish_discount_sum@ } else { Seq::empty() },
                if first { decimal(e.guest_num as nat) } else { Seq::empty() },
                wn,
            ));
            assert(out@ =~= old(out)@ + row_lines(*e, lv, wn, (k + 1) as nat));
        }
        k = k + 1;
    }
}

// ---------------------------------------------------------------------------
// Grouping by category

/// A row of the sales breakdown as the server sends it: the dish category, if
/// any, the discounted sales amount as the server wrote it, the dish name and the
/// number of guests.
pub struct OLAP {
    pub dish_category: Option<String>,
    pub dish_discount_sum: String,
    pub dish_name: String,
    pub guest_num: u32,
}

/// The rows of one answer of the server.
pub struct OLAPList {
    pub data: Vec<OLAP>,
}

/// Elements by category, in the order in which each category was first seen;
/// no category occurs twice.
pub type OlapMap = Vec<(String, Vec<OlapElement>)>;

/// What a search that found nothing reports.
pub open spec fn nothing_found_text() -> Seq<char> {
    "По вашим фильтрам ничего не найдено."@
}

/// The category under which rows without one are filed.
pub open spec fn other_category() -> Seq<char> {
    "Другие"@
}

pub open spec fn category_of(r: OLAP) -> Seq<char> {
    match r.dish_category {
        Some(c) => c@,
        None => other_category(),
    }
}

pub open spec fn element_of(r: OLAP) -> OlapElement {
    OlapElement { dish_discount_sum: r.dish_discount_sum, dish_name: r.dish_name, guest_num: r.guest_num }
}

/// The categories of `rows`, each once, in order of first occurrence.
pub open spec fn first_seen(rows: Seq<OLAP>) -> Seq<Seq<char>>
    decreases rows.len(),
{
    if rows.len() == 0 {
        Seq::empty()
    } else {
        let pre = first_seen(rows.drop_last());
        let c = category_of(rows.last());
        if pre.contains(c) { pre } else { pre.push(c) }
    }
}

/// The elements of the rows of `rows` whose category is `key`, in order.
pub open spec fn members(rows: Seq<OLAP>, key: Seq<char>) -> Seq<OlapElement>
    decreases rows.len(),
{
    if rows.len() == 0 {
        Seq::empty()
    } else {
        let pre = members(rows.drop_last(), key);
        if category_of(rows.last()) == key { pre.push(element_of(rows.last())) } else { pre }
    }
}

pub open spec fn keys_of(m: Seq<(String, Vec<OlapElement>)>) -> Seq<Seq<char>> {
    m.map_values(|g: (String, Vec<OlapElement>)| g.0@)
}

/// `m` files the rows of `rows` by category.
pub open spec fn groups_rows(m: Seq<(String, Vec<OlapElement>)>, rows: Seq<OLAP>) -> bool {
    &&& keys_of(m) == first_seen(rows)
    &&& forall|j: int| 0 <= j < m.len() ==> (#[trigger] m[j]).1@ == members(rows, m[j].0@)
}

fn copy_element(r: &OLAP) -> (e: OlapElement)
    ensures
        e == element_of(*r),
{
    OlapElement {
        dish_discount_sum: r.dish_discount_sum.clone(),
        dish_name: r.dish_name.clone(),
        guest_num: r.guest_num,
    }
}

fn category(r: &OLAP) -> (c: String)
    ensures
        c@ == category_of(*r),
{
    match &r.dish_category {
        Some(c) => c.clone(),
        None => "Другие".to_owned(),
    }
}


/// No category is listed twice.
proof fn lemma_first_seen_distinct(rows: Seq<OLAP>)
    ensures
        first_seen(rows).no_duplicates(),
    decreases rows.len(),
{
    if rows.len() > 0 {
        lemma_first_seen_distinct(rows.drop_last());
    }
}

/// A category not yet seen has no members.
proof fn lemma_members_absent(rows: Seq<OLAP>, key: Seq<char>)
    requires
        !first_seen(rows).contains(key),
    ensures
        members(rows, key) == Seq::<OlapElement>::empty(),
    decreases rows.len(),
{
    if rows.len() > 0 {
        let pre = first_seen(rows.drop_last());
        if pre.contains(key) {
            let k = choose|k: int| 0 <= k < pre.len() && pre[k] == key;
            if !pre.contains(category_of(rows.last())) {
                assert(first_seen(rows)[k] == key);
            }
        }
        lemma_members_absent(rows.drop_last(), key);
        if category_of(rows.last()) == key {
            if !pre.contains(key) {
                assert(first_seen(rows).last() == key);
            }
        }
    }
}

/// How many elements the groups named by `keys` hold together.
pub open spec fn total_members(rows: Seq<OLAP>, keys: Seq<Seq<char>>) -> nat
    decreases keys.len(),
{
    if keys.len() == 0 {
        0
    } else {
        total_members(rows, keys.drop_last()) + members(rows, keys.last()).len()
    }
}

proof fn lemma_total_members_step(rows: Seq<OLAP>, keys: Seq<Seq<char>>)
    requires
        rows.len() > 0,
        keys.no_duplicates(),
    ensures
        total_members(rows, keys) == total_members(rows.drop_last(), keys) + if keys.contains(
            category_of(rows.last()),
        ) {
            1nat
        } else {
            0nat
        },
    decreases keys.len(),
{
    if keys.len() > 0 {
        let d = keys.drop_last();
        assert(d.no_duplicates());
        lemma_total_members_step(rows, d);
        let c = category_of(rows.last());
        if keys.last() == c {
            if d.contains(c) {
                let k = choose|k: int| 0 <= k < d.len() && d[k] == c;
                assert(keys[k] == keys[keys.len() - 1]);
            }
        } else {
            if keys.contains(c) {
                let k = choose|k: int| 0 <= k < keys.len() && keys[k] == c;
                assert(d[k] == c);
            }
        }
    }
}

/// Grouping files every row exactly once: the groups, one per category seen,
/// together hold as many elements as there are rows. A row without a category
/// is filed under "Другие".
pub proof fn lemma_grouping_keeps_rows(rows: Seq<OLAP>)
    ensures
        total_members(rows, first_seen(rows)) == rows.len(),
        forall|i: int| 0 <= i < rows.len() && rows[i].dish_category is None ==> category_of(
            #[trigger] rows[i],
        ) == other_category(),
    decreases rows.len(),
{
    if rows.len() > 0 {
        let pre = rows.drop_last();
        let c = category_of(rows.last());
        lemma_grouping_keeps_rows(pre);
        lemma_first_seen_distinct(pre);
        lemma_first_seen_distinct(rows);
        let k = first_seen(pre);
        if k.contains(c) {
            lemma_total_members_step(rows, k);
        } else {
            lemma_total_members_step(rows, k);
            assert(first_seen(rows).drop_last() =~= k);
            lemma_members_absent(pre, c);
        }
    }
}

/// All elements of the groups named by `keys`, together.
pub open spec fn union_members(rows: Seq<OLAP>, keys: Seq<Seq<char>>) -> Multiset<OlapElement>
    decreases keys.len(),
{
    if keys.len() == 0 {
        Multiset::empty()
    } else {
        union_members(rows, keys.drop_last()).add(members(rows, keys.last()).to_multiset())
    }
}

proof fn lemma_union_members_step(rows: Seq<OLAP>, keys: Seq<Seq<char>>)
    requires
        rows.len() > 0,
        keys.no_duplicates(),
    ensures
        union_members(rows, keys) == if keys.contains(category_of(rows.last())) {
            union_members(rows.drop_last(), keys).insert(element_of(rows.last()))
        } else {
            union_members(rows.drop_last(), keys)
        },
    decreases keys.len(),
{
    let pre = rows.drop_last();
    let c = category_of(rows.last());
    let e = element_of(rows.last());
    if keys.len() > 0 {
        let d = keys.drop_last();
        let k = keys.last();
        assert(d.no_duplicates());
        lemma_union_members_step(rows, d);
        let mp = members(pre, k);
        mp.to_multiset_ensures();
        if k == c {
            assert(members(rows, k) == mp.push(e));
            if d.contains(c) {
                let i = choose|i: int| 0 <= i < d.len() && d[i] == c;
                assert(keys[i] == keys[keys.len() - 1]);
            }
            assert(union_members(rows, keys) =~= union_members(pre, keys).insert(e));
        } else {
            assert(members(rows, k) == mp);
            if keys.contains(c) {
                let i = choose|i: int| 0 <= i < keys.len() && keys[i] == c;
                assert(d[i] == c);
                assert(union_members(rows, keys) =~= union_members(pre, keys).insert(e));
            } else {
                assert(!d.contains(c)) by {
                    if d.contains(c) {
                        let i = choose|i: int| 0 <= i < d.len() && d[i] == c;
                        assert(keys[i] == c);
                    }
                }
            }
        }
    }
}

pub open spec fn elements_of(rows: Seq<OLAP>) -> Seq<OlapElement> {
    rows.map_values(|r: OLAP| element_of(r))
}

/// Grouping neither loses nor repeats a row: the groups, one per category seen,
/// together hold exactly the elements of the rows, each as often as it occurs.
pub proof fn lemma_grouping_is_a_partition(rows: Seq<OLAP>)
    ensures
        union_members(rows, first_seen(rows)) == elements_of(rows).to_multiset(),
    decreases rows.len(),
{
    if rows.len() == 0 {
        assert(elements_of(rows) =~= Seq::<OlapElement>::empty());
        elements_of(rows).to_multiset_ensures();
        assert(elements_of(rows).to_multiset() =~= Multiset::empty());
    } else {
        let pre = rows.drop_last();
        let c = category_of(rows.last());
        let e = element_of(rows.last());
        lemma_grouping_is_a_partition(pre);
        lemma_first_seen_distinct(pre);
        let k = first_seen(pre);
        assert(elements_of(rows) =~= elements_of(pre).push(e));
        elements_of(pre).to_multiset_ensures();
        lemma_union_members_step(rows, k);
        if !k.contains(c) {
            assert(first_seen(rows) == k.push(c));
            assert(first_seen(rows).drop_last() =~= k);
            lemma_members_absent(pre, c);
            assert(members(rows, c) =~= seq![e]);
            seq![e].to_multiset_ensures();
            Seq::<OlapElement>::empty().to_multiset_ensures();
            assert(seq![e] =~= Seq::<OlapElement>::empty().push(e));
            assert(union_members(rows, first_seen(rows)) =~= union_members(pre, k).insert(e));
        }
    }
}

// ---------------------------------------------------------------------------
// Report description

/// The kind of report asked for.
#[derive(Clone, Copy, Debug, PartialEq, Eq, Structural)]
#[allow(clippy::upper_case_acronyms)]
pub enum ReportType {
    SALES,
}

/// The kinds of filter a report takes.
#[derive(Clone, Copy, Debug, PartialEq, Eq, Structural)]
pub enum FilterType {
    DateRange,
    IncludeValues,
}

/// Named periods of a date-range filter.
#[derive(Clone, Copy, Debug, PartialEq, Eq, Structural)]
#[allow(non_camel_case_types)]
pub enum PeriodType {
    CURRENT_MONTH,
}

/// A filter on one field of the report.
#[allow(non_snake_case)]
pub enum Filter {
    DateRange { periodType: PeriodType, to: String },
    IncludeValues { values: Vec<String> },
}

/// What the sales breakdown groups by, what it sums and how it filters.
pub struct ReportConfig {
    pub report_type: ReportType,
    pub group_by_row_fields: Vec<String>,
    pub group_by_col_fields: Vec<String>,
    pub aggregate_fields: Vec<String>,
    pub filters: Vec<(String, Filter)>,
}

fn strings(a: &str) -> (r: Vec<String>)
    ensures
        strings_view(r@) == seq![a@],
{
    let mut r: Vec<String> = Vec::new();
    r.push(a.to_owned());
    assert(strings_view(r@) =~= seq![a@]);
    r
}

fn not_deleted() -> (r: Filter)
    ensures
        r matches Filter::IncludeValues { values } && strings_view(values@) == seq!["NOT_DELETED"@],
{
    Filter::IncludeValues { values: strings("NOT_DELETED") }
}

impl ReportConfig {
    /// The fixed sales breakdown: guests and discounted sums per dish within each
    /// dish category, over the current month up to `today`, without deleted or
    /// written-off orders.
    pub fn month_sales(today: &String) -> (r: ReportConfig)
        ensures
            r.report_type == ReportType::SALES,
            strings_view(r.group_by_row_fields@) == seq!["DishCategory"@],
            strings_view(r.group_by_col_fields@) == seq!["DishName"@],
            strings_view(r.aggregate_fields@) == seq!["GuestNum"@, "DishDiscountSumInt"@],
            r.filters@.len() == 3,
            r.filters@[0].0@ == "OpenDate.Typed"@,
            r.filters@[0].1 matches Filter::DateRange { periodType, to }
                && periodType == PeriodType::CURRENT_MONTH && to@ == today@,
            r.filters@[1].0@ == "DeletedWithWriteoff"@,
            r.filters@[1].1 matches Filter::IncludeValues { values }
                && strings_view(values@) == seq!["NOT_DELETED"@],
            r.filters@[2].0@ == "OrderDeleted"@,
            r.filters@[2].1 matches Filter::IncludeValues { values }
                && strings_view(values@) == seq!["NOT_DELETED"@],
    {
        let mut aggregate = strings("GuestNum");
        let second = "DishDiscountSumInt".to_owned();
        let ghost before = aggregate@;
        aggregate.push(second);
        proof {
            assert(aggregate@ == before.push(second));
            assert(strings_view(aggregate@) =~= strings_view(before).push(second@));
            assert(strings_view(aggregate@) =~= seq!["GuestNum"@, "DishDiscountSumInt"@]);
        }
        let mut filters: Vec<(String, Filter)> = Vec::new();
        filters.push((
            "OpenDate.Typed".to_owned(),
            Filter::DateRange { periodType: PeriodType::CURRENT_MONTH, to: today.clone() },
        ));
        filters.push(("DeletedWithWriteoff".to_owned(), not_deleted()));
        filters.push(("OrderDeleted".to_owned(), not_deleted()));
        ReportConfig {
            report_type: ReportType::SALES,
            group_by_row_fields: strings("DishCategory"),
            group_by_col_fields: strings("DishName"),
            aggregate_fields: aggregate,
            filters,
        }
    }
}

// ---------------------------------------------------------------------------
// The breakdown on the server type

/// Filing and rendering the sales breakdown.
pub trait Olap {
    /// The rows of `list` filed by category; rows without a category go under
    /// "Другие".
    fn get_olap(list: &OLAPList) -> (r: OlapMap)
        ensures
            groups_rows(r@, list.data@),
    ;

    /// The table of the elements of one category: at most `MAX_ROWS` rows, by guest
    /// count from largest, names wrapped to the name column, box-drawn borders.
    /// With no elements there is no table: the result says that nothing was found.
    fn display_olap(elements: &Vec<OlapElement>) -> (r: String)
        requires
            sums_fit(elements@),
        ensures
            elements@.len() == 0 ==> r@ == nothing_found_text(),
            elements@.len() > 0 ==> r@ == render(elements@),
    ;
}

impl Olap for Server {
    fn get_olap(list: &OLAPList) -> (r: OlapMap)
    {
        let rows = &list.data;
        let mut m: OlapMap = Vec::new();
        let mut i: usize = 0;
        proof {
            assert(rows@.take(0) =~= Seq::<OLAP>::empty());
            assert(keys_of(m@) =~= Seq::<Seq<char>>::empty());
        }
        while i < rows.len()
            invariant
                i <= rows@.len(),
                groups_rows(m@, rows@.take(i as int)),
            decreases rows@.len() - i,
        {
            let row = &rows[i];
            let c = category(row);
            let e = copy_element(row);
            let ghost pre = rows@.take(i as int);
            let ghost cur = rows@.take(i + 1);
            proof {
                assert(cur.drop_last() =~= pre);
                assert(cur.last() == *row);
            }
            let mut j: usize = 0;
            while j < m.len() && m[j].0 != c
                invariant
                    j <= m@.len(),
                    forall|k: int| 0 <= k < j ==> (#[trigger] m@[k]).0@ != c@,
                decreases m@.len() - j,
            {
                j = j + 1;
            }
            if j < m.len() {
                let ghost old_m = m@;
                let mut slot: (String, Vec<OlapElement>) = (String::new(), Vec::new());
                m.set_and_swap(j, &mut slot);
                slot.1.push(e);
                m.set_and_swap(j, &mut slot);
                proof {
                    assert(keys_of(old_m).contains(c@)) by {
                        assert(keys_of(old_m)[j as int] == c@);
                    }
                    assert(keys_of(m@) =~= keys_of(old_m));
                    lemma_first_seen_distinct(pre);
                    assert forall|k: int| 0 <= k < m@.len() implies (#[trigger] m@[k]).1@ == members(cur, m@[k].0@) by {
                        if k != j {
                            assert(m@[k] == old_m[k]);
                            assert(keys_of(old_m)[k] == old_m[k].0@);
                            assert(keys_of(old_m)[j as int] == old_m[j as int].0@);
                            assert(old_m[k].0@ != c@);
                        } else {
                            assert(m@[k].1@ == old_m[k].1@.push(e));
                        }
                    }
                }
            } else {
                let ghost old_m = m@;
                proof {
                    assert(!keys_of(old_m).contains(c@)) by {
                        if keys_of(old_m).contains(c@) {
                            let k = choose|k: int| 0 <= k < keys_of(old_m).len() && keys_of(old_m)[k] == c@;
                            assert(old_m[k].0@ != c@);
                        }
                    }
                }
                let mut v: Vec<OlapElement> = Vec::new();
                v.push(e);
                m.push((c, v));
                proof {
                    assert(keys_of(m@) =~= keys_of(old_m).push(c@));
                    lemma_members_absent(pre, c@);
                    assert forall|k: int| 0 <= k < m@.len() implies (#[trigger] m@[k]).1@ == members(cur, m@[k].0@) by {
                        if k < old_m.len() {
                            assert(m@[k] == old_m[k]);
                            assert(keys_of(old_m)[k] == old_m[k].0@);
                        } else {
                            assert(members(cur, c@) =~= seq![element_of(*row)]);
                        }
                    }
                }
            }
            i = i + 1;
        }
        proof {
            assert(rows@.take(rows@.len() as int) =~= rows@);
        }
        m
    }

    fn display_olap(elements: &Vec<OlapElement>) -> (r: String)
    {
        if elements.len() == 0 {
            return "По вашим фильтрам ничего не найдено.".to_owned();
        }
        let ghost es = elements@;
        let ghost ds = shown_rows(es);
        let order = order_by_guests(elements);
        proof {
            lemma_order_desc(guests_of(es), es.len());
        }
        let n: usize = if elements.len() < MAX_ROWS { elements.len() } else { MAX_ROWS };
        let mut w = Widths {
            name: "Название".unicode_len(),
            sum: "Сумма".unicode_len(),
            count: "Заказы".unicode_len(),
        };
        proof {
            reveal_strlit("Название");
            reveal_strlit("Сумма");
            reveal_strlit("Заказы");
            assert(ds.len() == n);
            assert(ds.take(0) =~= Seq::<OlapElement>::empty());
        }
        let mut p: usize = 0;
        while p < n
            invariant
                p <= n,
                n == ds.len(),
                n <= MAX_ROWS,
                n <= es.len(),
                es == elements@,
                ds == shown_rows(es),
                sums_fit(es),
                order@ == order_desc(guests_of(es), es.len()),
                order@.len() == es.len(),
                forall|k: int| 0 <= k < es.len() ==> #[trigger] order@[k] < es.len(),
                w.name == name_width(ds.take(p as int)),
                w.sum == sum_width(ds.take(p as int)),
                w.count == count_width(ds.take(p as int)),
                w.name <= NAME_WIDTH_CAP,
                w.sum + 4 <= usize::MAX,
                w.count <= 10,
            decreases n - p,
        {
            let e = &elements[order[p]];
            proof {
                assert(ds.take(p + 1).drop_last() =~= ds.take(p as int));
                assert(ds.take(p + 1).last() == ds[p as int]);
                assert(ds[p as int] == es[order@[p as int] as int]);
                lemma_decimal_len_u32(e.guest_num);
            }
            let nl = e.dish_name.as_str().unicode_len();
            let capped = if nl < NAME_WIDTH_CAP { nl } else { NAME_WIDTH_CAP };
            if capped > w.name {
                w.name = capped;
            }
            let sl = e.dish_discount_sum.as_str().unicode_len();
            if sl > w.sum {
                w.sum = sl;
            }
            let cl = decimal_of(e.guest_num as u64).len();
            if cl > w.count {
                w.count = cl;
            }
            p = p + 1;
        }
        proof {
            assert(ds.take(n as int) =~= ds);
            lemma_widths_cover_headers(ds);
        }
        let ghost wn = (w.name as nat, w.sum as nat, w.count as nat);
        let mut out: Vec<char> = Vec::new();
        push_str(&mut out, "```\n");
        push_border(&mut out, &w, '┌', '─', '┬', '┐');
        out.push('│');
        push_centred(&mut out, "Название", w.name);
        push_centred(&mut out, "Сумма", w.sum);
        push_centred(&mut out, "Заказы", w.count);
        out.push('\n');
        push_border(&mut out, &w, '├', '─', '┼', '┤');
        let ghost head = out@;
        proof {
            assert(head =~= fence() + border(wn, '┌', '─', '┬', '┐') + header_line(wn) + border(
                wn,
                '├',
                '─',
                '┼',
                '┤',
            ));
        }
        let mut q: usize = 0;
        while q < n
            invariant
                q <= n,
                n == ds.len(),
                n <= es.len(),
                es == elements@,
                ds == shown_rows(es),
                order@ == order_desc(guests_of(es), es.len()),
                order@.len() == es.len(),
                forall|k: int| 0 <= k < es.len() ==> #[trigger] order@[k] < es.len(),
                wn == (w.name as nat, w.sum as nat, w.count as nat),
                w.name + 2 <= usize::MAX,
                w.sum + 2 <= usize::MAX,
                w.count + 2 <= usize::MAX,
                out@ == head + body(ds, wn, q as nat),
            decreases n - q,
        {
            let e = &elements[order[q]];
            proof {
                assert(ds[q as int] == es[order@[q as int] as int]);
            }
            push_row_block(&mut out, e, &w);
            if q + 1 != n {
                push_border(&mut out, &w, '├', '─', '┼', '┤');
            }
            q = q + 1;
        }
        push_border(&mut out, &w, '└', '─', '┴', '┘');
        push_str(&mut out, "```\n");
        proof {
            assert(wn == widths_of(ds));
            assert(out@ =~= table_of(ds));
        }
        string_of(&out)
    }
}

// ---------------------------------------------------------------------------
// Laws of wrapping and rendering

/// Lines joined by single spaces.
pub open spec fn join_spaced(ls: Seq<Seq<char>>) -> Seq<char>
    decreases ls.len(),
{
    if ls.len() == 0 {
        Seq::empty()
    } else if ls.len() == 1 {
        ls[0]
    } else {
        join_spaced(ls.drop_last()) + seq![' '] + ls.last()
    }
}

proof fn lemma_split_nonempty(s: Seq<char>)
    ensures
        forall|i: int| 0 <= i < split_state(s).0.len() ==> (#[trigger] split_state(s).0[i]).len() > 0,
    decreases s.len(),
{
    if s.len() > 0 {
        lemma_split_nonempty(s.drop_last());
        let (ws, cur) = split_state(s.drop_last());
        let c = s.last();
        if is_space(c) && cur.len() > 0 {
            assert forall|i: int| 0 <= i < ws.push(cur).len() implies (#[trigger] ws.push(cur)[i]).len() > 0 by {
                if i < ws.len() {
                    assert(ws.push(cur)[i] == ws[i]);
                }
            }
        }
    }
}

proof fn lemma_words_nonempty(s: Seq<char>)
    ensures
        forall|i: int| 0 <= i < words(s).len() ==> (#[trigger] words(s)[i]).len() > 0,
{
    lemma_split_nonempty(s);
    let (ws, cur) = split_state(s);
    if cur.len() > 0 {
        assert forall|i: int| 0 <= i < ws.push(cur).len() implies (#[trigger] ws.push(cur)[i]).len() > 0 by {
            if i < ws.len() {
                assert(ws.push(cur)[i] == ws[i]);
            }
        }
    }
}

pub open spec fn state_lines(st: (Seq<Seq<char>>, Seq<char>)) -> Seq<Seq<char>> {
    if st.1.len() > 0 { st.0.push(st.1) } else { st.0 }
}

proof fn lemma_wrap_state_join(ws: Seq<Seq<char>>, width: nat)
    requires
        forall|i: int| 0 <= i < ws.len() ==> (#[trigger] ws[i]).len() > 0,
    ensures
        join_spaced(state_lines(wrap_state(ws, width))) == join_spaced(ws),
        (wrap_state(ws, width).1.len() == 0) <==> ws.len() == 0,
        wrap_state(ws, width).1.len() == 0 ==> wrap_state(ws, width).0.len() == 0,
    decreases ws.len(),
{
    if ws.len() > 0 {
        let pre = ws.drop_last();
        lemma_wrap_state_join(pre, width);
        let (l, c) = wrap_state(pre, width);
        let w = ws.last();
        assert(w.len() > 0);
        assert(ws.drop_last() == pre);
        if c.len() > 0 && c.len() + 1 + w.len() > width {
            assert(l.push(c).push(w).drop_last() =~= l.push(c));
        } else if c.len() > 0 {
            let n = c + seq![' '] + w;
            assert(l.push(n).drop_last() =~= l);
            assert(l.push(c).drop_last() =~= l);
            if l.len() == 0 {
                assert(join_spaced(l.push(c)) == c);
                assert(join_spaced(l.push(n)) == n);
            } else {
                assert(join_spaced(l.push(n)) =~= join_spaced(l.push(c)) + seq![' '] + w);
            }
        } else {
            assert(pre.len() == 0);
            assert(l.push(w) =~= seq![w]);
            assert(ws =~= seq![w]);
        }
    }
}

/// Wrapping never splits a word: joined by single spaces, the lines give back the
/// words of the text joined by single spaces.
pub proof fn lemma_wrap_keeps_words(text: Seq<char>, width: nat)
    ensures
        join_spaced(wrap(text, width)) == join_spaced(words(text)),
{
    lemma_words_nonempty(text);
    lemma_wrap_state_join(words(text), width);
}

proof fn lemma_wrap_state_fits(ws: Seq<Seq<char>>, width: nat)
    requires
        forall|i: int| 0 <= i < ws.len() ==> (#[trigger] ws[i]).len() <= width,
    ensures
        wrap_state(ws, width).1.len() <= width,
        forall|i: int| 0 <= i < wrap_state(ws, width).0.len() ==> (#[trigger] wrap_state(ws, width).0[i]).len() <= width,
    decreases ws.len(),
{
    if ws.len() > 0 {
        lemma_wrap_state_fits(ws.drop_last(), width);
    }
}

/// Where no word is longer than `width`, no line of the wrapped text is.
pub proof fn lemma_wrap_fits(text: Seq<char>, width: nat)
    requires
        forall|i: int| 0 <= i < words(text).len() ==> (#[trigger] words(text)[i]).len() <= width,
    ensures
        forall|i: int| 0 <= i < wrap(text, width).len() ==> (#[trigger] wrap(text, width)[i]).len() <= width,
{
    lemma_wrap_state_fits(words(text), width);
}

proof fn lemma_widths_bound(ds: Seq<OlapElement>)
    ensures
        forall|i: int| 0 <= i < ds.len() ==> (#[trigger] ds[i]).dish_discount_sum@.len() <= sum_width(ds)
            && decimal(ds[i].guest_num as nat).len() <= count_width(ds),
    decreases ds.len(),
{
    if ds.len() > 0 {
        lemma_widths_bound(ds.drop_last());
        assert forall|i: int| 0 <= i < ds.len() implies (#[trigger] ds[i]).dish_discount_sum@.len() <= sum_width(ds)
            && decimal(ds[i].guest_num as nat).len() <= count_width(ds) by {
            if i < ds.len() - 1 {
                assert(ds[i] == ds.drop_last()[i]);
            }
        }
    }
}

/// Line `k` of the row of `e`: the `k`-th line of its wrapped name, with the
/// amount and the count on the first line only.
pub open spec fn name_line(e: OlapElement, w: (nat, nat, nat), k: int) -> Seq<char> {
    row_line(
        wrap(e.dish_name@, w.0)[k],
        if k == 0 { e.dish_discount_sum@ } else { Seq::empty() },
        if k == 0 { decimal(e.guest_num as nat) } else { Seq::empty() },
        w,
    )
}

/// The width of every line of a table with column widths `w`, newline excluded.
pub open spec fn line_width(w: (nat, nat, nat)) -> nat {
    w.0 + w.1 + w.2 + 10
}

/// A table shows at most `MAX_ROWS` rows, by guest count from largest. Where no
/// word of a shown name is wider than the name column, every line of the table
/// (borders, header and each line of each row) is equally wide.
pub proof fn lemma_table_shape(es: Seq<OlapElement>)
    ensures
        shown_rows(es).len() <= MAX_ROWS,
        forall|a: int, b: int| 0 <= a < b < shown_rows(es).len() ==> (#[trigger] shown_rows(es)[a]).guest_num
            >= (#[trigger] shown_rows(es)[b]).guest_num,
        (forall|i: int, j: int| 0 <= i < shown_rows(es).len() && 0 <= j < words(shown_rows(es)[i].dish_name@).len()
            ==> (#[trigger] words(shown_rows(es)[i].dish_name@)[j]).len() <= name_width(shown_rows(es))) ==> {
            let ds = shown_rows(es);
            let w = widths_of(ds);
            &&& forall|l: char, m: char, s: char, r: char| #[trigger] border(w, l, m, s, r).len() == line_width(w) + 1
            &&& header_line(w).len() == line_width(w) + 1
            &&& forall|i: int, k: int| 0 <= i < ds.len() && 0 <= k < wrap(ds[i].dish_name@, w.0).len()
                ==> (#[trigger] name_line(ds[i], w, k)).len() == line_width(w) + 1
        },
{
    let ds = shown_rows(es);
    let g = guests_of(es);
    lemma_order_desc(g, es.len());
    let order = order_desc(g, es.len());
    assert forall|a: int, b: int| 0 <= a < b < ds.len() implies (#[trigger] ds[a]).guest_num
        >= (#[trigger] ds[b]).guest_num by {
        assert(ds[a] == es[order[a] as int]);
        assert(ds[b] == es[order[b] as int]);
        assert(g[order[a] as int] >= g[order[b] as int]);
    }
    if forall|i: int, j: int| 0 <= i < ds.len() && 0 <= j < words(ds[i].dish_name@).len()
        ==> (#[trigger] words(ds[i].dish_name@)[j]).len() <= name_width(ds) {
        let w = widths_of(ds);
        lemma_widths_cover_headers(ds);
        lemma_widths_bound(ds);
        assert forall|l: char, m: char, s: char, r: char| #[trigger] border(w, l, m, s, r).len() == line_width(w) + 1 by {
        }
        assert forall|i: int, k: int| 0 <= i < ds.len() && 0 <= k < wrap(ds[i].dish_name@, w.0).len()
            implies (#[trigger] name_line(ds[i], w, k)).len() == line_width(w) + 1 by {
            lemma_wrap_fits(ds[i].dish_name@, w.0);
            assert(wrap(ds[i].dish_name@, w.0)[k].len() <= w.0);
        }
    }
}

/// Pieces of text, one after another.
pub open spec fn concat(ls: Seq<Seq<char>>) -> Seq<char>
    decreases ls.len(),
{
    if ls.len() == 0 {
        Seq::empty()
    } else {
        concat(ls.drop_last()) + ls.last()
    }
}

proof fn lemma_concat_append(a: Seq<Seq<char>>, b: Seq<Seq<char>>)
    ensures
        concat(a + b) == concat(a) + concat(b),
    decreases b.len(),
{
    if b.len() == 0 {
        assert(a + b =~= a);
        assert(concat(a) + concat(b) =~= concat(a));
    } else {
        assert((a + b).drop_last() =~= a + b.drop_last());
        lemma_concat_append(a, b.drop_last());
        assert(concat(a + b) =~= concat(a) + concat(b));
    }
}

proof fn lemma_concat_one(x: Seq<char>)
    ensures
        concat(seq![x]) == x,
{
    let s = seq![x];
    assert(s.drop_last() =~= Seq::<Seq<char>>::empty());
    assert(s.last() == x);
    assert(concat(s.drop_last()) == Seq::<char>::empty());
    assert(concat(s) == concat(s.drop_last()) + x);
    assert(Seq::<char>::empty() + x =~= x);
}

proof fn lemma_count_one(x: Seq<char>, c: char)
    ensures
        count_starting(seq![x], c) == if x.len() > 0 && x[0] == c { 1nat } else { 0nat },
{
    let s = seq![x];
    assert(s.drop_last() =~= Seq::<Seq<char>>::empty());
    assert(s.last() == x);
    assert(count_starting(s.drop_last(), c) == 0);
}

/// The lines of the row of `e`, each with its line break.
pub open spec fn block_lines(e: OlapElement, w: (nat, nat, nat)) -> Seq<Seq<char>> {
    Seq::new(wrap(e.dish_name@, w.0).len(), |k: int| name_line(e, w, k))
}

proof fn lemma_row_lines(e: OlapElement, w: (nat, nat, nat), k: nat)
    requires
        k <= wrap(e.dish_name@, w.0).len(),
    ensures
        row_lines(e, wrap(e.dish_name@, w.0), w, k) == concat(block_lines(e, w).take(k as int)),
    decreases k,
{
    if k > 0 {
        lemma_row_lines(e, w, (k - 1) as nat);
        assert(block_lines(e, w).take(k as int).drop_last() =~= block_lines(e, w).take(k - 1));
    } else {
        assert(block_lines(e, w).take(0) =~= Seq::<Seq<char>>::empty());
    }
}

/// The lines of the rows of the first `n` of `ds`, separators included.
pub open spec fn body_lines(ds: Seq<OlapElement>, w: (nat, nat, nat), n: nat) -> Seq<Seq<char>>
    decreases n,
{
    if n == 0 {
        Seq::empty()
    } else {
        let j = (n - 1) as nat;
        body_lines(ds, w, j) + block_lines(ds[j as int], w) + if n != ds.len() {
            seq![border(w, '├', '─', '┼', '┤')]
        } else {
            Seq::empty()
        }
    }
}

proof fn lemma_body_lines(ds: Seq<OlapElement>, w: (nat, nat, nat), n: nat)
    requires
        n <= ds.len(),
    ensures
        body(ds, w, n) == concat(body_lines(ds, w, n)),
    decreases n,
{
    if n > 0 {
        let j = (n - 1) as nat;
        lemma_body_lines(ds, w, j);
        let e = ds[j as int];
        let bl = block_lines(e, w);
        lemma_row_lines(e, w, wrap(e.dish_name@, w.0).len());
        assert(bl.take(bl.len() as int) =~= bl);
        let sep: Seq<Seq<char>> = if n != ds.len() { seq![border(w, '├', '─', '┼', '┤')] } else { Seq::empty() };
        lemma_concat_append(body_lines(ds, w, j), bl);
        lemma_concat_append(body_lines(ds, w, j) + bl, sep);
        if n != ds.len() {
            lemma_concat_one(border(w, '├', '─', '┼', '┤'));
        } else {
            assert(concat(sep) =~= Seq::<char>::empty());
        }
        assert(body(ds, w, n) =~= concat(body_lines(ds, w, n)));
    }
}

/// The lines of the table of rows `ds`, each with its line break, between the
/// opening and the closing fence.
pub open spec fn table_lines(ds: Seq<OlapElement>) -> Seq<Seq<char>> {
    let w = widths_of(ds);
    seq![border(w, '┌', '─', '┬', '┐'), header_line(w), border(w, '├', '─', '┼', '┤')] + body_lines(
        ds,
        w,
        ds.len(),
    ) + seq![border(w, '└', '─', '┴', '┘')]
}

/// How many of `ls` start with `c`.
pub open spec fn count_starting(ls: Seq<Seq<char>>, c: char) -> nat
    decreases ls.len(),
{
    if ls.len() == 0 {
        0
    } else {
        count_starting(ls.drop_last(), c) + if ls.last().len() > 0 && ls.last()[0] == c {
            1nat
        } else {
            0nat
        }
    }
}

proof fn lemma_count_append(a: Seq<Seq<char>>, b: Seq<Seq<char>>, c: char)
    ensures
        count_starting(a + b, c) == count_starting(a, c) + count_starting(b, c),
    decreases b.len(),
{
    if b.len() == 0 {
        assert(a + b =~= a);
    } else {
        assert((a + b).drop_last() =~= a + b.drop_last());
        lemma_count_append(a, b.drop_last(), c);
    }
}

proof fn lemma_block_starts(e: OlapElement, w: (nat, nat, nat), k: nat)
    requires
        k <= block_lines(e, w).len(),
    ensures
        count_starting(block_lines(e, w).take(k as int), '├') == 0,
    decreases k,
{
    if k > 0 {
        lemma_block_starts(e, w, (k - 1) as nat);
        assert(block_lines(e, w).take(k as int).drop_last() =~= block_lines(e, w).take(k - 1));
        assert(block_lines(e, w)[k - 1][0] == '│');
    }
}

proof fn lemma_body_separators(ds: Seq<OlapElement>, w: (nat, nat, nat), n: nat)
    requires
        0 < n <= ds.len(),
    ensures
        count_starting(body_lines(ds, w, n), '├') == if n == ds.len() { n - 1 } else { n as int },
    decreases n,
{
    let j = (n - 1) as nat;
    let e = ds[j as int];
    let bl = block_lines(e, w);
    lemma_block_starts(e, w, bl.len());
    assert(bl.take(bl.len() as int) =~= bl);
    if j > 0 {
        lemma_body_separators(ds, w, j);
    } else {
        assert(body_lines(ds, w, 0) =~= Seq::<Seq<char>>::empty());
    }
    let sep: Seq<Seq<char>> = if n != ds.len() { seq![border(w, '├', '─', '┼', '┤')] } else { Seq::empty() };
    lemma_count_append(body_lines(ds, w, j), bl, '├');
    lemma_count_append(body_lines(ds, w, j) + bl, sep, '├');
    if n != ds.len() {
        lemma_count_one(border(w, '├', '─', '┼', '┤'), '├');
    }
}

/// The rendered text is the opening fence, the table's lines one after another,
/// and the closing fence. Every line ends with a line break; the lines that
/// start with '├' are the one under the header and one between each two rows,
/// as many as rows are shown. Where no word of a shown name is wider than the
/// name column, every line is equally wide.
#[verifier::rlimit(60)]
pub proof fn lemma_table_lines(es: Seq<OlapElement>)
    requires
        es.len() > 0,
    ensures
        ({
            let ds = shown_rows(es);
            let w = widths_of(ds);
            let ls = table_lines(ds);
            &&& render(es) == fence() + concat(ls) + fence()
            &&& forall|i: int| 0 <= i < ls.len() ==> (#[trigger] ls[i]).len() > 0 && ls[i].last() == '\n'
            &&& count_starting(ls, '├') == ds.len()
            &&& ds.len() == min_nat(MAX_ROWS as nat, es.len())
            &&& (forall|i: int, j: int| 0 <= i < ds.len() && 0 <= j < words(ds[i].dish_name@).len()
                ==> (#[trigger] words(ds[i].dish_name@)[j]).len() <= name_width(ds))
                ==> forall|i: int| 0 <= i < ls.len() ==> (#[trigger] ls[i]).len() == line_width(w) + 1
        }),
{
    let ds = shown_rows(es);
    let w = widths_of(ds);
    let ls = table_lines(ds);
    let head = seq![border(w, '┌', '─', '┬', '┐'), header_line(w), border(w, '├', '─', '┼', '┤')];
    let bl = body_lines(ds, w, ds.len());
    let tail = seq![border(w, '└', '─', '┴', '┘')];
    lemma_order_desc(guests_of(es), es.len());
    assert(ds.len() > 0);
    lemma_body_lines(ds, w, ds.len());
    lemma_concat_append(head, bl);
    lemma_concat_append(head + bl, tail);
    let b1 = border(w, '┌', '─', '┬', '┐');
    let b3 = border(w, '├', '─', '┼', '┤');
    let h2 = header_line(w);
    assert(head =~= seq![b1] + seq![h2] + seq![b3]);
    lemma_concat_one(b1);
    lemma_concat_one(h2);
    lemma_concat_one(b3);
    lemma_concat_append(seq![b1], seq![h2]);
    lemma_concat_append(seq![b1] + seq![h2], seq![b3]);
    lemma_concat_one(border(w, '└', '─', '┴', '┘'));
    assert(render(es) =~= fence() + concat(ls) + fence());
    lemma_body_separators(ds, w, ds.len());
    lemma_count_append(head, bl, '├');
    lemma_count_append(head + bl, tail, '├');
    lemma_count_one(b1, '├');
    lemma_count_one(h2, '├');
    lemma_count_one(b3, '├');
    lemma_count_append(seq![b1], seq![h2], '├');
    lemma_count_append(seq![b1] + seq![h2], seq![b3], '├');
    lemma_count_one(border(w, '└', '─', '┴', '┘'), '├');
    lemma_body_lines_shape(ds, w, ds.len());
    assert forall|i: int| 0 <= i < ls.len() implies (#[trigger] ls[i]).len() > 0 && ls[i].last() == '\n' by {
        if 3 <= i < 3 + bl.len() {
            assert(ls[i] == bl[i - 3]);
        }
    }
    if forall|i: int, j: int| 0 <= i < ds.len() && 0 <= j < words(ds[i].dish_name@).len()
        ==> (#[trigger] words(ds[i].dish_name@)[j]).len() <= name_width(ds) {
        lemma_table_shape(es);
        lemma_body_lines_width(ds, w, ds.len());
        assert forall|i: int| 0 <= i < ls.len() implies (#[trigger] ls[i]).len() == line_width(w) + 1 by {
            if 3 <= i < 3 + bl.len() {
                assert(ls[i] == bl[i - 3]);
            }
        }
    }
}

proof fn lemma_body_lines_shape(ds: Seq<OlapElement>, w: (nat, nat, nat), n: nat)
    requires
        n <= ds.len(),
    ensures
        forall|i: int| 0 <= i < body_lines(ds, w, n).len() ==> (#[trigger] body_lines(ds, w, n)[i]).len() > 0
            && body_lines(ds, w, n)[i].last() == '\n',
    decreases n,
{
    if n > 0 {
        let j = (n - 1) as nat;
        lemma_body_lines_shape(ds, w, j);
        let p = body_lines(ds, w, j);
        let bl = block_lines(ds[j as int], w);
        let b = body_lines(ds, w, n);
        assert forall|i: int| 0 <= i < b.len() implies (#[trigger] b[i]).len() > 0 && b[i].last() == '\n' by {
            if i < p.len() {
                assert(b[i] == p[i]);
            } else if i < p.len() + bl.len() {
                assert(b[i] == bl[i - p.len()]);
            }
        }
    }
}

proof fn lemma_body_lines_width(ds: Seq<OlapElement>, w: (nat, nat, nat), n: nat)
    requires
        n <= ds.len(),
        w == widths_of(ds),
        forall|i: int, k: int| 0 <= i < ds.len() && 0 <= k < wrap(ds[i].dish_name@, w.0).len()
            ==> (#[trigger] name_line(ds[i], w, k)).len() == line_width(w) + 1,
    ensures
        forall|i: int| 0 <= i < body_lines(ds, w, n).len() ==> (#[trigger] body_lines(ds, w, n)[i]).len()
            == line_width(w) + 1,
    decreases n,
{
    if n > 0 {
        let j = (n - 1) as nat;
        lemma_body_lines_width(ds, w, j);
        let p = body_lines(ds, w, j);
        let bl = block_lines(ds[j as int], w);
        let b = body_lines(ds, w, n);
        assert forall|i: int| 0 <= i < b.len() implies (#[trigger] b[i]).len() == line_width(w) + 1 by {
            if i < p.len() {
                assert(b[i] == p[i]);
            } else if i < p.len() + bl.len() {
                assert(b[i] == bl[i - p.len()]);
                assert(bl[i - p.len()] == name_line(ds[j as int], w, i - p.len()));
            }
        }
    }
}

} // verus!
