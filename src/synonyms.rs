//! Synonym normalization of names: token-wise replacement from a table.
use vstd::prelude::*;
use crate::models::names::NameMap;
use crate::text::{chars_of, string_of};

verus! {

/// Unicode's White_Space property, which `char::is_whitespace` tests.
pub open spec fn is_space(c: char) -> bool {
    ('\u{9}' <= c && c <= '\u{d}') || c == ' ' || c == '\u{85}' || c == '\u{a0}' || c == '\u{1680}' || (
    '\u{2000}' <= c && c <= '\u{200a}') || c == '\u{2028}' || c == '\u{2029}' || c == '\u{202f}' || c
        == '\u{205f}' || c == '\u{3000}'
}

/// Whether `char::is_alphanumeric` holds of a character.
pub uninterp spec fn is_alnum(c: char) -> bool;

/// What `str::to_lowercase` returns for a string.
pub uninterp spec fn lower_of(s: Seq<char>) -> Seq<char>;

/// Whether a character is whitespace.
fn char_is_space(c: char) -> (r: bool)
    ensures
        r == is_space(c),
{
    ('\u{9}' <= c && c <= '\u{d}') || c == ' ' || c == '\u{85}' || c == '\u{a0}' || c == '\u{1680}' || (
    '\u{2000}' <= c && c <= '\u{200a}') || c == '\u{2028}' || c == '\u{2029}' || c == '\u{202f}' || c
        == '\u{205f}' || c == '\u{3000}'
}

/// Relies on `char::is_alphanumeric`, Unicode's Alphabetic or Numeric property.
#[verifier::external_body]
fn char_is_alnum(c: char) -> (r: bool)
    ensures
        r == is_alnum(c),
{
    c.is_alphanumeric()
}

/// Relies on `str::to_lowercase`: the result depends on the characters alone,
/// and the empty string stays empty.
#[verifier::external_body]
fn lowercase(s: &str) -> (r: String)
    ensures
        r@ == lower_of(s@),
        s@.len() == 0 ==> r@.len() == 0,
{
    s.to_lowercase()
}

/// Whitespace-separated tokens found in the first `i` characters, and the
/// token still open at that point.
pub open spec fn scan(s: Seq<char>, i: nat) -> (Seq<Seq<char>>, Seq<char>)
    decreases i,
{
    if i == 0 || i > s.len() {
        (Seq::empty(), Seq::empty())
    } else {
        let (ts, cur) = scan(s, (i - 1) as nat);
        if is_space(s[i - 1]) {
            if cur.len() > 0 {
                (ts.push(cur), Seq::empty())
            } else {
                (ts, Seq::empty())
            }
        } else {
            (ts, cur.push(s[i - 1]))
        }
    }
}

/// The maximal runs of non-whitespace characters, in order.
pub open spec fn tokens_of(s: Seq<char>) -> Seq<Seq<char>> {
    let (ts, cur) = scan(s, s.len());
    if cur.len() > 0 {
        ts.push(cur)
    } else {
        ts
    }
}

/// The characters trimmed: non-alphanumeric ones for tokens (`alnum`), whitespace otherwise.
pub open spec fn trimmed_char(alnum: bool, c: char) -> bool {
    if alnum {
        !is_alnum(c)
    } else {
        is_space(c)
    }
}

/// Drop leading trimmed characters.
pub open spec fn strip_front(t: Seq<char>, alnum: bool) -> Seq<char>
    decreases t.len(),
{
    if t.len() > 0 && trimmed_char(alnum, t[0]) {
        strip_front(t.drop_first(), alnum)
    } else {
        t
    }
}

/// Drop trailing trimmed characters.
pub open spec fn strip_back(t: Seq<char>, alnum: bool) -> Seq<char>
    decreases t.len(),
{
    if t.len() > 0 && trimmed_char(alnum, t.last()) {
        strip_back(t.drop_last(), alnum)
    } else {
        t
    }
}

/// A token with non-alphanumeric characters trimmed from both ends.
pub open spec fn trim_token(t: Seq<char>) -> Seq<char> {
    strip_back(strip_front(t, true), true)
}

/// A text with whitespace trimmed from both ends.
pub open spec fn trim_space(t: Seq<char>) -> Seq<char> {
    strip_back(strip_front(t, false), false)
}

/// The token as it stands after normalization: its replacement when its
/// trimmed lowercase form is in the table, else the token unchanged.
pub open spec fn normalize_token(rep: Map<Seq<char>, Seq<char>>, t: Seq<char>) -> Seq<char> {
    let key = lower_of(trim_token(t));
    if rep.contains_key(key) {
        rep[key]
    } else {
        t
    }
}

/// Tokens joined with single spaces.
pub open spec fn join_spaced(ts: Seq<Seq<char>>) -> Seq<char>
    decreases ts.len(),
{
    if ts.len() == 0 {
        Seq::empty()
    } else if ts.len() == 1 {
        ts[0]
    } else {
        join_spaced(ts.drop_last()) + seq![' '] + ts.last()
    }
}

/// The normalized text: each token normalized, joined with single spaces.
pub open spec fn normalized(rep: Map<Seq<char>, Seq<char>>, s: Seq<char>) -> Seq<char> {
    join_spaced(tokens_of(s).map_values(|t: Seq<char>| normalize_token(rep, t)))
}

proof fn lemma_strip_front(t: Seq<char>, k: int, alnum: bool)
    requires
        0 <= k <= t.len(),
        forall|j: int| 0 <= j < k ==> trimmed_char(alnum, #[trigger] t[j]),
        k == t.len() || !trimmed_char(alnum, t[k]),
    ensures
        strip_front(t, alnum) == t.subrange(k, t.len() as int),
    decreases k,
{
    if k == 0 {
        assert(t.subrange(0, t.len() as int) =~= t);
    } else {
        let d = t.drop_first();
        assert forall|j: int| 0 <= j < k - 1 implies trimmed_char(alnum, #[trigger] d[j]) by {
            assert(d[j] == t[j + 1]);
        }
        if k < t.len() {
            assert(d[k - 1] == t[k]);
        }
        assert(trimmed_char(alnum, t[0]));
        lemma_strip_front(d, k - 1, alnum);
        assert(d.subrange(k - 1, d.len() as int) =~= t.subrange(k, t.len() as int));
    }
}

proof fn lemma_strip_back(t: Seq<char>, k: int, alnum: bool)
    requires
        0 <= k <= t.len(),
        forall|j: int| k <= j < t.len() ==> trimmed_char(alnum, #[trigger] t[j]),
        k == 0 || !trimmed_char(alnum, t[k - 1]),
    ensures
        strip_back(t, alnum) == t.subrange(0, k),
    decreases t.len() - k,
{
    if k == t.len() {
        assert(t.subrange(0, k) =~= t);
    } else {
        let d = t.drop_last();
        assert forall|j: int| k <= j < d.len() implies trimmed_char(alnum, #[trigger] d[j]) by {
            assert(d[j] == t[j]);
        }
        if k > 0 {
            assert(d[k - 1] == t[k - 1]);
        }
        assert(trimmed_char(alnum, t[t.len() - 1]));
        lemma_strip_back(d, k, alnum);
        assert(d.subrange(0, k) =~= t.subrange(0, k));
    }
}

fn is_trimmed(alnum: bool, c: char) -> (r: bool)
    ensures
        r == trimmed_char(alnum, c),
{
    if alnum {
        !char_is_alnum(c)
    } else {
        char_is_space(c)
    }
}

/// The characters of `t` trimmed at both ends: of non-alphanumeric
/// characters when `alnum`, of whitespace otherwise.
fn trim_chars(t: &Vec<char>, alnum: bool) -> (r: Vec<char>)
    ensures
        r@ == strip_back(strip_front(t@, alnum), alnum),
{
    let n = t.len();
    let mut lo: usize = 0;
    while lo < n && is_trimmed(alnum, t[lo])
        invariant
            lo <= n,
            n == t@.len(),
            forall|j: int| 0 <= j < lo ==> trimmed_char(alnum, #[trigger] t@[j]),
        decreases n - lo,
    {
        lo = lo + 1;
    }
    proof {
        lemma_strip_front(t@, lo as int, alnum);
    }
    let ghost f = t@.subrange(lo as int, n as int);
    let mut hi: usize = n;
    while hi > lo && is_trimmed(alnum, t[hi - 1])
        invariant
            lo <= hi <= n,
            n == t@.len(),
            f == t@.subrange(lo as int, n as int),
            forall|j: int| hi - lo <= j < f.len() ==> trimmed_char(alnum, #[trigger] f[j]),
        decreases hi,
    {
        assert(f[hi - 1 - lo] == t@[hi - 1]);
        hi = hi - 1;
    }
    proof {
        if hi > lo {
            assert(f[hi - lo - 1] == t@[hi - 1]);
        }
        lemma_strip_back(f, (hi - lo) as int, alnum);
    }
    let mut out: Vec<char> = Vec::new();
    let mut i: usize = lo;
    while i < hi
        invariant
            lo <= i <= hi,
            hi <= n,
            n == t@.len(),
            out@ == t@.subrange(lo as int, i as int),
        decreases hi - i,
    {
        out.push(t[i]);
        assert(t@.subrange(lo as int, i + 1) =~= t@.subrange(lo as int, i as int).push(t@[i as int]));
        i = i + 1;
    }
    assert(f.subrange(0, (hi - lo) as int) =~= t@.subrange(lo as int, hi as int));
    out
}

/// Split a text into its whitespace-separated tokens.
pub fn split_tokens(s: &str) -> (r: Vec<Vec<char>>)
    ensures
        r@.len() == tokens_of(s@).len(),
        forall|i: int| 0 <= i < r@.len() ==> #[trigger] r@[i]@ == tokens_of(s@)[i],
{
    let cs = chars_of(s);
    let mut ts: Vec<Vec<char>> = Vec::new();
    let mut cur: Vec<char> = Vec::new();
    let mut i: usize = 0;
    while i < cs.len()
        invariant
            i <= cs@.len(),
            cs@ == s@,
            ts@.len() == scan(s@, i as nat).0.len(),
            forall|k: int| 0 <= k < ts@.len() ==> #[trigger] ts@[k]@ == scan(s@, i as nat).0[k],
            cur@ == scan(s@, i as nat).1,
        decreases cs@.len() - i,
    {
        let c = cs[i];
        let ghost before_ts = ts@;
        if char_is_space(c) {
            if cur.len() > 0 {
                let mut done: Vec<char> = Vec::new();
                std::mem::swap(&mut done, &mut cur);
                ts.push(done);
                assert forall|k: int| 0 <= k < ts@.len() implies #[trigger] ts@[k]@ == scan(s@, (i + 1) as nat).0[k] by {
                    if k < before_ts.len() {
                        assert(ts@[k] == before_ts[k]);
                    }
                }
            }
        } else {
            cur.push(c);
        }
        i = i + 1;
    }
    if cur.len() > 0 {
        let ghost before_ts = ts@;
        ts.push(cur);
        assert forall|k: int| 0 <= k < ts@.len() implies #[trigger] ts@[k]@ == tokens_of(s@)[k] by {
            if k < before_ts.len() {
                assert(ts@[k] == before_ts[k]);
            }
        }
    }
    ts
}

/// `i` is the position of the first `#`.
pub open spec fn first_hash(s: Seq<char>, i: int) -> bool {
    0 <= i < s.len() && s[i] == '#' && forall|j: int| 0 <= j < i ==> s[j] != '#'
}

/// The text before the first `#`.
pub open spec fn cut_comment(s: Seq<char>) -> Seq<char> {
    if exists|i: int| first_hash(s, i) {
        s.take(choose|i: int| first_hash(s, i))
    } else {
        s
    }
}

/// Each run of whitespace replaced by one space.
pub open spec fn squash(s: Seq<char>) -> Seq<char>
    decreases s.len(),
{
    if s.len() == 0 {
        Seq::empty()
    } else if is_space(s.last()) {
        if s.len() >= 2 && is_space(s[s.len() - 2]) {
            squash(s.drop_last())
        } else {
            squash(s.drop_last()).push(' ')
        }
    } else {
        squash(s.drop_last()).push(s.last())
    }
}

/// The parts between occurrences of `c` (one more part than occurrences).
pub open spec fn split_char(s: Seq<char>, c: char) -> Seq<Seq<char>>
    decreases s.len(),
{
    if s.len() == 0 {
        seq![Seq::empty()]
    } else {
        let ps = split_char(s.drop_last(), c);
        if s.last() == c {
            ps.push(Seq::empty())
        } else {
            ps.update(ps.len() - 1, ps.last().push(s.last()))
        }
    }
}

/// The parts between occurrences of `=>`.
pub open spec fn split_arrow(s: Seq<char>) -> Seq<Seq<char>>
    decreases s.len(),
{
    if s.len() >= 2 && s[s.len() - 2] == '=' && s.last() == '>' {
        split_arrow(s.take(s.len() - 2)).push(Seq::empty())
    } else if s.len() == 0 {
        seq![Seq::empty()]
    } else {
        let ps = split_arrow(s.drop_last());
        ps.update(ps.len() - 1, ps.last().push(s.last()))
    }
}

/// A mapping of each part (trimmed) to `target`, skipping empty parts and
/// parts equal to the target.
pub open spec fn map_parts(parts: Seq<Seq<char>>, target: Seq<char>) -> Seq<(Seq<char>, Seq<char>)>
    decreases parts.len(),
{
    if parts.len() == 0 {
        Seq::empty()
    } else {
        let rest = map_parts(parts.drop_last(), target);
        let p = trim_space(parts.last());
        if p.len() > 0 && p != target {
            rest.push((p, target))
        } else {
            rest
        }
    }
}

/// The cleaned form of a line: comment cut, whitespace trimmed, lowercased,
/// whitespace runs squashed.
pub open spec fn clean_line(line: Seq<char>) -> Seq<char> {
    squash(lower_of(trim_space(cut_comment(line))))
}

/// The mappings a cleaned line gives, in order. `a, b => x, y` maps `a` and
/// `b` to `x`; `a, b, c` maps `b` and `c` to `a`.
pub open spec fn mappings_from(l: Seq<char>) -> Seq<(Seq<char>, Seq<char>)> {
    let arrows = split_arrow(l);
    if l.len() == 0 {
        Seq::empty()
    } else if arrows.len() >= 2 {
        if arrows.len() == 2 {
            map_parts(split_char(arrows[0], ','), trim_space(split_char(arrows[1], ',')[0]))
        } else {
            Seq::empty()
        }
    } else {
        let parts = split_char(l, ',');
        map_parts(parts.drop_first(), trim_space(parts[0]))
    }
}

/// The mappings a line of a synonym file gives, in order.
pub open spec fn line_mappings(line: Seq<char>) -> Seq<(Seq<char>, Seq<char>)> {
    mappings_from(clean_line(line))
}

/// The table after inserting the mappings in order.
pub open spec fn insert_all(m: Map<Seq<char>, Seq<char>>, ps: Seq<(Seq<char>, Seq<char>)>) -> Map<Seq<char>, Seq<char>>
    decreases ps.len(),
{
    if ps.len() == 0 {
        m
    } else {
        insert_all(m, ps.drop_last()).insert(ps.last().0, ps.last().1)
    }
}

fn cut_comment_chars(s: &Vec<char>) -> (r: Vec<char>)
    ensures
        r@ == cut_comment(s@),
{
    let mut i: usize = 0;
    while i < s.len() && s[i] != '#'
        invariant
            i <= s@.len(),
            forall|j: int| 0 <= j < i ==> s@[j] != '#',
        decreases s@.len() - i,
    {
        i = i + 1;
    }
    let mut out: Vec<char> = Vec::new();
    let mut k: usize = 0;
    while k < i
        invariant
            k <= i <= s@.len(),
            out@ == s@.take(k as int),
        decreases i - k,
    {
        out.push(s[k]);
        assert(s@.take(k + 1) =~= s@.take(k as int).push(s@[k as int]));
        k = k + 1;
    }
    proof {
        if i < s@.len() {
            assert(first_hash(s@, i as int));
            let c = choose|c: int| first_hash(s@, c);
            assert(c == i as int) by {
                if c < i {
                    assert(s@[c] != '#');
                } else if c > i {
                    assert(s@[i as int] != '#');
                }
            }
        } else {
            assert(s@.take(i as int) =~= s@);
            if exists|c: int| first_hash(s@, c) {
                let c = choose|c: int| first_hash(s@, c);
                assert(s@[c] != '#');
            }
        }
    }
    out
}

fn squash_chars(s: &Vec<char>) -> (r: Vec<char>)
    ensures
        r@ == squash(s@),
{
    let mut out: Vec<char> = Vec::new();
    let mut i: usize = 0;
    while i < s.len()
        invariant
            i <= s@.len(),
            out@ == squash(s@.take(i as int)),
        decreases s@.len() - i,
    {
        let ghost t1 = s@.take(i + 1);
        assert(t1.drop_last() =~= s@.take(i as int));
        assert(t1.last() == s@[i as int]);
        if char_is_space(s[i]) {
            if i >= 1 && char_is_space(s[i - 1]) {
                assert(t1[t1.len() - 2] == s@[i - 1]);
            } else {
                if i >= 1 {
                    assert(t1[t1.len() - 2] == s@[i - 1]);
                }
                out.push(' ');
            }
        } else {
            out.push(s[i]);
        }
        i = i + 1;
    }
    assert(s@.take(s@.len() as int) =~= s@);
    out
}

/// The views of a list of character vectors.
pub open spec fn char_views(v: Seq<Vec<char>>) -> Seq<Seq<char>> {
    Seq::new(v.len(), |i: int| v[i]@)
}

fn split_chars(s: &Vec<char>, c: char) -> (r: Vec<Vec<char>>)
    ensures
        char_views(r@) == split_char(s@, c),
{
    let mut parts: Vec<Vec<char>> = Vec::new();
    let mut cur: Vec<char> = Vec::new();
    let mut i: usize = 0;
    assert(split_char(s@.take(0), c) =~= seq![Seq::<char>::empty()]);
    while i < s.len()
        invariant
            i <= s@.len(),
            char_views(parts@).push(cur@) == split_char(s@.take(i as int), c),
        decreases s@.len() - i,
    {
        let ghost t1 = s@.take(i + 1);
        assert(t1.drop_last() =~= s@.take(i as int));
        assert(t1.last() == s@[i as int]);
        let ghost before = char_views(parts@).push(cur@);
        if s[i] == c {
            let mut done: Vec<char> = Vec::new();
            std::mem::swap(&mut done, &mut cur);
            parts.push(done);
            assert(char_views(parts@).push(cur@) =~= before.push(Seq::empty()));
        } else {
            let ghost pv = char_views(parts@);
            cur.push(s[i]);
            assert(char_views(parts@).push(cur@) =~= before.update(before.len() - 1, before.last().push(s@[i as int])));
        }
        i = i + 1;
    }
    let ghost before = char_views(parts@);
    parts.push(cur);
    assert(char_views(parts@) =~= before.push(cur@));
    assert(s@.take(s@.len() as int) =~= s@);
    parts
}

proof fn lemma_split_arrow_nonempty(s: Seq<char>)
    ensures
        split_arrow(s).len() >= 1,
    decreases s.len(),
{
    if s.len() >= 2 && s[s.len() - 2] == '=' && s.last() == '>' {
        lemma_split_arrow_nonempty(s.take(s.len() - 2));
    } else if s.len() > 0 {
        lemma_split_arrow_nonempty(s.drop_last());
    }
}

fn split_arrow_chars(s: &Vec<char>) -> (r: Vec<Vec<char>>)
    ensures
        char_views(r@) == split_arrow(s@),
{
    let mut parts: Vec<Vec<char>> = Vec::new();
    let mut cur: Vec<char> = Vec::new();
    let mut i: usize = 0;
    assert(split_arrow(s@.take(0)) =~= seq![Seq::<char>::empty()]);
    while i < s.len()
        invariant
            i <= s@.len(),
            char_views(parts@).push(cur@) == split_arrow(s@.take(i as int)),
            cur@.len() <= i,
            cur@.len() > 0 ==> cur@.last() == s@[i - 1],
            i > 0 && cur@.len() == 0 ==> s@[i - 1] == '>' && i >= 2 && s@[i - 2] == '=',
        decreases s@.len() - i,
    {
        let ghost t1 = s@.take(i + 1);
        assert(t1.drop_last() =~= s@.take(i as int));
        assert(t1.last() == s@[i as int]);
        let ghost before = char_views(parts@).push(cur@);
        if s[i] == '>' && cur.len() > 0 && cur[cur.len() - 1] == '=' {
            assert(t1[t1.len() - 2] == s@[i - 1]);
            assert(t1.take(t1.len() - 2) =~= s@.take(i - 1));
            let ghost t0 = s@.take(i - 1);
            // the part before the arrow ends without its `=`
            let mut done: Vec<char> = Vec::new();
            std::mem::swap(&mut done, &mut cur);
            done.pop();
            proof {
                let tp = s@.take(i as int);
                assert(tp.drop_last() =~= t0);
                assert(tp.last() == '=');
                lemma_split_arrow_nonempty(t0);
                if tp.len() >= 2 && tp[tp.len() - 2] == '=' && tp.last() == '>' {
                    assert(false);
                }
                let sa = split_arrow(t0);
                assert(split_arrow(tp) == sa.update(sa.len() - 1, sa.last().push('=')));
                assert(before == sa.update(sa.len() - 1, sa.last().push('=')));
                assert(before.len() == sa.len());
                assert(before[before.len() - 1] == sa.last().push('='));
                assert(before.drop_last() =~= sa.drop_last());
                assert(done@ =~= sa.last());
                assert(char_views(parts@) =~= split_arrow(t0).drop_last());
            }
            let ghost pv0 = char_views(parts@);
            parts.push(done);
            proof {
                assert(char_views(parts@) =~= pv0.push(done@));
                assert(char_views(parts@) =~= split_arrow(t0));
                assert(char_views(parts@).push(cur@) =~= split_arrow(t1));
            }
        } else {
            cur.push(s[i]);
            proof {
                if t1.len() >= 2 && t1[t1.len() - 2] == '=' && t1.last() == '>' {
                    assert(t1[t1.len() - 2] == s@[i - 1]);
                    assert(false);
                }
                assert(char_views(parts@).push(cur@) =~= before.update(before.len() - 1, before.last().push(s@[i as int])));
            }
        }
        i = i + 1;
    }
    let ghost before = char_views(parts@);
    parts.push(cur);
    assert(char_views(parts@) =~= before.push(cur@));
    assert(s@.take(s@.len() as int) =~= s@);
    parts
}

fn map_parts_exec(parts: &Vec<Vec<char>>, lo: usize, target: &Vec<char>, out: &mut Vec<(String, String)>)
    requires
        lo <= parts@.len(),
    ensures
        pair_views(final(out)@) == pair_views(old(out)@) + map_parts(char_views(parts@).skip(lo as int), target@),
{
    let mut i: usize = lo;
    let ghost base = pair_views(out@);
    assert(char_views(parts@).skip(lo as int).take(0) =~= Seq::<Seq<char>>::empty());
    while i < parts.len()
        invariant
            lo <= i <= parts@.len(),
            pair_views(out@) == base + map_parts(char_views(parts@).skip(lo as int).take(i - lo), target@),
        decreases parts@.len() - i,
    {
        let ghost sk = char_views(parts@).skip(lo as int);
        let ghost t1 = sk.take(i + 1 - lo);
        assert(t1.drop_last() =~= sk.take(i - lo));
        assert(t1.last() == parts@[i as int]@);
        let p = trim_chars(&parts[i], false);
        let ghost before = out@;
        if p.len() > 0 && !vec_eq(&p, target) {
            out.push((string_of(&p), string_of(target)));
            assert(pair_views(out@) =~= pair_views(before).push((p@, target@)));
        }
        i = i + 1;
    }
    assert(char_views(parts@).skip(lo as int).take(parts@.len() - lo) =~= char_views(parts@).skip(lo as int));
}

fn vec_eq(a: &Vec<char>, b: &Vec<char>) -> (r: bool)
    ensures
        r == (a@ == b@),
{
    if a.len() != b.len() {
        return false;
    }
    let mut i: usize = 0;
    while i < a.len()
        invariant
            i <= a@.len(),
            a@.len() == b@.len(),
            forall|j: int| 0 <= j < i ==> a@[j] == b@[j],
        decreases a@.len() - i,
    {
        if a[i] != b[i] {
            return false;
        }
        i = i + 1;
    }
    assert(a@ =~= b@);
    true
}

/// The views of a list of string pairs.
pub open spec fn pair_views(v: Seq<(String, String)>) -> Seq<(Seq<char>, Seq<char>)> {
    Seq::new(v.len(), |i: int| (v[i].0@, v[i].1@))
}

/// The mappings a line gives once its comment is cut, its ends trimmed and
/// it is lowercased: whitespace runs are squashed, then the line is split.
pub fn mappings_of_lowered(lowered: &str) -> (r: Vec<(String, String)>)
    ensures
        pair_views(r@) == mappings_from(squash(lowered@)),
{
    let lc = chars_of(lowered);
    let l = squash_chars(&lc);
    let mut out: Vec<(String, String)> = Vec::new();
    assert(pair_views(out@) =~= Seq::<(Seq<char>, Seq<char>)>::empty());
    if l.len() == 0 {
        return out;
    }
    let arrows = split_arrow_chars(&l);
    if arrows.len() >= 2 {
        if arrows.len() == 2 {
            let lefts = split_chars(&arrows[0], ',');
            let rights = split_chars(&arrows[1], ',');
            proof {
                assert(char_views(arrows@)[0] == arrows@[0]@);
                assert(char_views(arrows@)[1] == arrows@[1]@);
                lemma_split_char_nonempty(arrows@[1]@, ',');
                assert(char_views(rights@)[0] == rights@[0]@);
            }
            let target = trim_chars(&rights[0], false);
            map_parts_exec(&lefts, 0, &target, &mut out);
            assert(char_views(lefts@).skip(0) =~= char_views(lefts@));
        }
        return out;
    }
    let parts = split_chars(&l, ',');
    proof {
        lemma_split_char_nonempty(l@, ',');
        assert(char_views(parts@)[0] == parts@[0]@);
    }
    let canon = trim_chars(&parts[0], false);
    map_parts_exec(&parts, 1, &canon, &mut out);
    assert(char_views(parts@).skip(1) =~= char_views(parts@).drop_first());
    out
}

/// The mappings a line of a synonym file gives.
pub fn parse_line(line: &str) -> (r: Vec<(String, String)>)
    ensures
        pair_views(r@) == line_mappings(line@),
{
    let raw = chars_of(line);
    let cut = cut_comment_chars(&raw);
    let trimmed = trim_chars(&cut, false);
    let lowered = lowercase(string_of(&trimmed).as_str());
    mappings_of_lowered(lowered.as_str())
}

proof fn lemma_split_char_nonempty(s: Seq<char>, c: char)
    ensures
        split_char(s, c).len() >= 1,
    decreases s.len(),
{
    if s.len() > 0 {
        lemma_split_char_nonempty(s.drop_last(), c);
    }
}

/// A word: non-empty, without whitespace.
pub open spec fn is_word(t: Seq<char>) -> bool {
    t.len() > 0 && forall|i: int| 0 <= i < t.len() ==> !is_space(#[trigger] t[i])
}

proof fn lemma_scan_prefix(s1: Seq<char>, s2: Seq<char>, i: nat)
    requires
        i <= s1.len(),
        i <= s2.len(),
        s1.take(i as int) == s2.take(i as int),
    ensures
        scan(s1, i) == scan(s2, i),
    decreases i,
{
    if i > 0 {
        assert(s1.take(i - 1) =~= s1.take(i as int).take(i - 1));
        assert(s2.take(i - 1) =~= s2.take(i as int).take(i - 1));
        assert(s1[i - 1] == s1.take(i as int)[i - 1]);
        assert(s2[i - 1] == s2.take(i as int)[i - 1]);
        lemma_scan_prefix(s1, s2, (i - 1) as nat);
    }
}

proof fn lemma_scan_word(p: Seq<char>, x: Seq<char>, k: nat)
    requires
        k <= x.len(),
        forall|j: int| 0 <= j < x.len() ==> !is_space(#[trigger] x[j]),
    ensures
        scan(p + x, p.len() + k) == (scan(p, p.len()).0, scan(p, p.len()).1 + x.take(k as int)),
    decreases k,
{
    if k == 0 {
        assert((p + x).take(p.len() as int) =~= p.take(p.len() as int));
        lemma_scan_prefix(p + x, p, p.len());
        assert(scan(p, p.len()).1 + x.take(0) =~= scan(p, p.len()).1);
    } else {
        lemma_scan_word(p, x, (k - 1) as nat);
        assert((p + x)[p.len() + k - 1] == x[k - 1]);
        assert(scan(p, p.len()).1 + x.take(k - 1) + seq![x[k - 1]] =~= scan(p, p.len()).1 + x.take(k as int));
        assert((scan(p, p.len()).1 + x.take(k - 1)).push(x[k - 1]) =~= scan(p, p.len()).1 + x.take(k as int));
    }
}

proof fn lemma_scan_space(p: Seq<char>)
    ensures
        scan(p + seq![' '], p.len() + 1) == (if scan(p, p.len()).1.len() > 0 {
            (scan(p, p.len()).0.push(scan(p, p.len()).1), Seq::<char>::empty())
        } else {
            (scan(p, p.len()).0, Seq::<char>::empty())
        }),
{
    let q = p + seq![' '];
    assert(q.take(p.len() as int) =~= p.take(p.len() as int));
    lemma_scan_prefix(q, p, p.len());
    assert(q[p.len() as int] == ' ');
}

proof fn lemma_scan_join(m: Seq<Seq<char>>)
    requires
        m.len() > 0,
        forall|i: int| 0 <= i < m.len() ==> is_word(#[trigger] m[i]),
    ensures
        scan(join_spaced(m), join_spaced(m).len()) == (m.drop_last(), m.last()),
    decreases m.len(),
{
    if m.len() == 1 {
        assert(is_word(m[0]));
        lemma_scan_word(Seq::<char>::empty(), m[0], m[0].len());
        assert(Seq::<char>::empty() + m[0] =~= m[0]);
        assert(m[0].take(m[0].len() as int) =~= m[0]);
        assert(Seq::<char>::empty() + m[0] =~= m[0]);
        assert(m.drop_last() =~= Seq::<Seq<char>>::empty());
    } else {
        let m1 = m.drop_last();
        assert forall|i: int| 0 <= i < m1.len() implies is_word(#[trigger] m1[i]) by {
            assert(m1[i] == m[i]);
        }
        lemma_scan_join(m1);
        let j1 = join_spaced(m1);
        lemma_scan_space(j1);
        assert(is_word(m1.last()));
        assert(m1.drop_last().push(m1.last()) =~= m1);
        let q = j1 + seq![' '];
        assert(is_word(m[m.len() - 1]));
        lemma_scan_word(q, m.last(), m.last().len());
        assert(m.last().take(m.last().len() as int) =~= m.last());
        assert(Seq::<char>::empty() + m.last() =~= m.last());
        assert(join_spaced(m) == j1 + seq![' '] + m.last());
    }
}

proof fn lemma_tokens_of_join(m: Seq<Seq<char>>)
    requires
        forall|i: int| 0 <= i < m.len() ==> is_word(#[trigger] m[i]),
    ensures
        tokens_of(join_spaced(m)) == m,
{
    if m.len() == 0 {
        assert(tokens_of(join_spaced(m)) =~= m);
    } else {
        lemma_scan_join(m);
        assert(is_word(m[m.len() - 1]));
        assert(m.drop_last().push(m.last()) =~= m);
    }
}

proof fn lemma_scan_words(s: Seq<char>, i: nat)
    ensures
        forall|k: int| 0 <= k < scan(s, i).0.len() ==> is_word(#[trigger] scan(s, i).0[k]),
        forall|j: int| 0 <= j < scan(s, i).1.len() ==> !is_space(#[trigger] scan(s, i).1[j]),
    decreases i,
{
    if i > 0 && i <= s.len() {
        lemma_scan_words(s, (i - 1) as nat);
        let (ts, cur) = scan(s, (i - 1) as nat);
        if is_space(s[i - 1]) {
            if cur.len() > 0 {
                assert forall|k: int| 0 <= k < ts.push(cur).len() implies is_word(#[trigger] ts.push(cur)[k]) by {
                    if k < ts.len() {
                        assert(ts.push(cur)[k] == ts[k]);
                    }
                }
            }
        } else {
            assert forall|j: int| 0 <= j < cur.push(s[i - 1]).len() implies !is_space(#[trigger] cur.push(s[i - 1])[j]) by {
                if j < cur.len() {
                    assert(cur.push(s[i - 1])[j] == cur[j]);
                }
            }
        }
    }
}

proof fn lemma_tokens_are_words(s: Seq<char>)
    ensures
        forall|k: int| 0 <= k < tokens_of(s).len() ==> is_word(#[trigger] tokens_of(s)[k]),
{
    lemma_scan_words(s, s.len());
    let (ts, cur) = scan(s, s.len());
    if cur.len() > 0 {
        assert forall|k: int| 0 <= k < ts.push(cur).len() implies is_word(#[trigger] ts.push(cur)[k]) by {
            if k < ts.len() {
                assert(ts.push(cur)[k] == ts[k]);
            }
        }
    }
}

/// Normalizing twice gives what normalizing once gives, for a table whose
/// replacements are single words that normalize to themselves.
pub proof fn law_normalize_idempotent(rep: Map<Seq<char>, Seq<char>>, s: Seq<char>)
    requires
        forall|k: Seq<char>|
            #[trigger] rep.contains_key(k) ==> is_word(rep[k]) && normalize_token(rep, rep[k]) == rep[k],
    ensures
        normalized(rep, normalized(rep, s)) == normalized(rep, s),
{
    let ts = tokens_of(s);
    let m = ts.map_values(|t: Seq<char>| normalize_token(rep, t));
    lemma_tokens_are_words(s);
    assert forall|i: int| 0 <= i < m.len() implies is_word(#[trigger] m[i]) && normalize_token(rep, m[i]) == m[i] by {
        assert(is_word(ts[i]));
        let key = lower_of(trim_token(ts[i]));
        if rep.contains_key(key) {
            assert(m[i] == rep[key]);
        }
    }
    lemma_tokens_of_join(m);
    let m2 = tokens_of(join_spaced(m)).map_values(|t: Seq<char>| normalize_token(rep, t));
    assert(m2 =~= m);
}

/// Token replacements: a trimmed, lowercased token to its canonical form.
#[derive(Debug, Clone)]
pub struct SynonymService {
    replacements: NameMap,
}

impl SynonymService {
    pub fn new() -> (r: SynonymService)
        ensures
            r@ == Map::<Seq<char>, Seq<char>>::empty(),
    {
        SynonymService { replacements: NameMap::new() }
    }

    /// Map `from` to `to`.
    pub fn add_mapping(&mut self, from: String, to: String)
        ensures
            final(self)@ == old(self)@.insert(from@, to@),
    {
        self.replacements.insert(from, to);
    }

    /// Add the mappings of one line of a synonym file, in order.
    pub fn add_line(&mut self, line: &str)
        ensures
            final(self)@ == insert_all(old(self)@, line_mappings(line@)),
    {
        let ms = parse_line(line);
        let ghost pv = pair_views(ms@);
        let mut i: usize = 0;
        while i < ms.len()
            invariant
                i <= ms@.len(),
                pv == pair_views(ms@),
                pv == line_mappings(line@),
                self@ == insert_all(old(self)@, pv.take(i as int)),
            decreases ms@.len() - i,
        {
            let (a, b) = &ms[i];
            self.replacements.insert(a.clone(), b.clone());
            assert(pv.take(i + 1).drop_last() =~= pv.take(i as int));
            assert(pv.take(i + 1).last() == pv[i as int]);
            i = i + 1;
        }
        assert(pv.take(ms@.len() as int) =~= pv);
    }

    /// The token as it stands after normalization, given its trimmed
    /// lowercase form `key`: the key's replacement if it has one, else the token.
    pub fn replace_token(&self, token: &str, key: &str) -> (r: String)
        ensures
            r@ == (if self@.contains_key(key@) {
                self@[key@]
            } else {
                token@
            }),
    {
        match self.replacements.get(key) {
            Some(rep) => rep.clone(),
            None => token.to_owned(),
        }
    }

    /// Replace each token of `text` whose trimmed lowercase form has a
    /// mapping; other tokens keep their original form. Tokens are rejoined
    /// with single spaces.
    pub fn normalize(&self, text: &str) -> (r: String)
        ensures
            r@ == normalized(self@, text@),
    {
        let toks = split_tokens(text);
        let ghost mapped = tokens_of(text@).map_values(|t: Seq<char>| normalize_token(self@, t));
        let mut out: Vec<char> = Vec::new();
        let mut i: usize = 0;
        while i < toks.len()
            invariant
                i <= toks@.len(),
                toks@.len() == tokens_of(text@).len(),
                forall|k: int| 0 <= k < toks@.len() ==> #[trigger] toks@[k]@ == tokens_of(text@)[k],
                mapped == tokens_of(text@).map_values(|t: Seq<char>| normalize_token(self@, t)),
                out@ == join_spaced(mapped.take(i as int)),
            decreases toks@.len() - i,
        {
            let tok = &toks[i];
            let trimmed = trim_chars(tok, true);
            let key = lowercase(string_of(&trimmed).as_str());
            let ghost before = out@;
            if i > 0 {
                out.push(' ');
            }
            let word = self.replace_token(string_of(tok).as_str(), key.as_str());
            let mut wc = chars_of(word.as_str());
            out.append(&mut wc);
            proof {
                let t1 = mapped.take(i + 1);
                assert(t1.drop_last() =~= mapped.take(i as int));
                assert(t1.last() == mapped[i as int]);
                assert(mapped[i as int] == normalize_token(self@, tokens_of(text@)[i as int]));
                if i == 0 {
                    assert(mapped.take(0).len() == 0);
                    assert(before.len() == 0);
                    assert(out@ =~= t1[0]);
                } else {
                    assert(out@ =~= before + seq![' '] + mapped[i as int]);
                }
            }
            i = i + 1;
        }
        assert(mapped.take(toks@.len() as int) =~= mapped);
        string_of(&out)
    }
}

impl View for SynonymService {
    type V = Map<Seq<char>, Seq<char>>;

    closed spec fn view(&self) -> Map<Seq<char>, Seq<char>> {
        self.replacements@
    }
}

} // verus!
