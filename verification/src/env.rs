//! By-key lookup over a multi-line key/value text blob.
//!
//! A decoded reply carries alternating key and value lines.  The lookup scans
//! the lines in order for the first line whose trimmed text equals the key;
//! the following line, taken verbatim, is its value.

use crate::codec::push_char;
use vstd::prelude::*;

verus! {

/// The whitespace characters that trimming removes from a line's ends.
pub open spec fn is_blank(c: char) -> bool {
    c == ' ' || c == '\t' || c == '\n' || c == '\r' || c == '\u{b}' || c == '\u{c}'
}

/// The line less its leading whitespace.
pub open spec fn trim_start_spec(s: Seq<char>) -> Seq<char>
    decreases s.len(),
{
    if s.len() > 0 && is_blank(s[0]) {
        trim_start_spec(s.drop_first())
    } else {
        s
    }
}

/// The line less its trailing whitespace.
pub open spec fn trim_end_spec(s: Seq<char>) -> Seq<char>
    decreases s.len(),
{
    if s.len() > 0 && is_blank(s.last()) {
        trim_end_spec(s.drop_last())
    } else {
        s
    }
}

/// The line less its leading and trailing whitespace.
pub open spec fn trim_spec(s: Seq<char>) -> Seq<char> {
    trim_end_spec(trim_start_spec(s))
}

/// The segments of `s` separated by line feeds; always at least one segment,
/// and a segment may be empty.
pub open spec fn split_nl(s: Seq<char>) -> Seq<Seq<char>>
    decreases s.len(),
{
    if s.len() == 0 {
        seq![Seq::<char>::empty()]
    } else if s[0] == '\n' {
        seq![Seq::<char>::empty()] + split_nl(s.drop_first())
    } else {
        let rest = split_nl(s.drop_first());
        seq![seq![s[0]] + rest[0]] + rest.drop_first()
    }
}

/// A carriage return just before the line feed belongs to the line ending.
pub open spec fn strip_cr(l: Seq<char>) -> Seq<char> {
    if l.len() > 0 && l.last() == '\r' {
        l.drop_last()
    } else {
        l
    }
}

/// The lines of a text blob: segments separated by line feeds, each
/// feed-terminated segment less a trailing carriage return, and no empty
/// final line after a terminating line feed.
pub open spec fn lines_spec(s: Seq<char>) -> Seq<Seq<char>> {
    let segs = split_nl(s);
    let body = segs.drop_last().map_values(|l: Seq<char>| strip_cr(l));
    if segs.last().len() == 0 {
        body
    } else {
        body.push(segs.last())
    }
}

/// The least index of a line whose trimmed text equals the key, or -1.
pub open spec fn first_match(lines: Seq<Seq<char>>, key: Seq<char>) -> int
    decreases lines.len(),
{
    if lines.len() == 0 {
        -1
    } else if trim_spec(lines[0]) == key {
        0
    } else {
        let r = first_match(lines.drop_first(), key);
        if r == -1 {
            -1
        } else {
            r + 1
        }
    }
}

/// What the lookup returns: the line after the first matching key line,
/// verbatim, and nothing when no line matches or the match is the last line.
pub open spec fn lookup_spec(s: Seq<char>, key: Seq<char>) -> Option<Seq<char>> {
    let lines = lines_spec(s);
    let m = first_match(lines, key);
    if 0 <= m && m + 1 < lines.len() {
        Some(lines[m + 1])
    } else {
        None
    }
}

proof fn lemma_first_match_props(lines: Seq<Seq<char>>, key: Seq<char>)
    ensures
        first_match(lines, key) == -1 ==> forall|j: int|
            0 <= j < lines.len() ==> trim_spec(#[trigger] lines[j]) != key,
        first_match(lines, key) != -1 ==> {
            let m = first_match(lines, key);
            &&& 0 <= m < lines.len()
            &&& trim_spec(lines[m]) == key
            &&& forall|j: int| 0 <= j < m ==> trim_spec(#[trigger] lines[j]) != key
        },
    decreases lines.len(),
{
    if lines.len() > 0 {
        lemma_first_match_props(lines.drop_first(), key);
        assert(forall|j: int|
            1 <= j < lines.len() ==> #[trigger] lines[j] == lines.drop_first()[j - 1]);
    }
}

fn chars_to_string(v: &Vec<char>) -> (r: String)
    ensures
        r@ == v@,
{
    let mut r = String::new();
    let mut i: usize = 0;
    while i < v.len()
        invariant
            i <= v@.len(),
            r@ == v@.take(i as int),
        decreases v@.len() - i,
    {
        push_char(&mut r, v[i]);
        proof {
            assert(r@ =~= v@.take(i as int + 1));
        }
        i = i + 1;
    }
    proof {
        assert(r@ =~= v@);
    }
    r
}

fn str_to_chars(s: &str) -> (r: Vec<char>)
    ensures
        r@ == s@,
{
    let n = s.unicode_len();
    let mut r: Vec<char> = Vec::new();
    let mut i: usize = 0;
    while i < n
        invariant
            n == s@.len(),
            i <= n,
            r@ == s@.take(i as int),
        decreases n - i,
    {
        r.push(s.get_char(i));
        proof {
            assert(r@ =~= s@.take(i as int + 1));
        }
        i = i + 1;
    }
    proof {
        assert(r@ =~= s@);
    }
    r
}

fn is_blank_char(c: char) -> (r: bool)
    ensures
        r == is_blank(c),
{
    c == ' ' || c == '\t' || c == '\n' || c == '\r' || c == '\u{b}' || c == '\u{c}'
}

fn chars_eq(a: &Vec<char>, b: &Vec<char>) -> (r: bool)
    ensures
        r == (a@ == b@),
{
    if a.len() != b.len() {
        return false;
    }
    let mut i: usize = 0;
    while i < a.len()
        invariant
            a@.len() == b@.len(),
            i <= a@.len(),
            forall|j: int| 0 <= j < i ==> a@[j] == b@[j],
        decreases a@.len() - i,
    {
        if a[i] != b[i] {
            return false;
        }
        i = i + 1;
    }
    proof {
        assert(a@ =~= b@);
    }
    true
}

fn trim_chars(v: &Vec<char>) -> (r: Vec<char>)
    ensures
        r@ == trim_spec(v@),
{
    let mut s: usize = 0;
    proof {
        assert(v@.skip(0) =~= v@);
    }
    while s < v.len() && is_blank_char(v[s])
        invariant
            s <= v@.len(),
            trim_start_spec(v@) == trim_start_spec(v@.skip(s as int)),
        decreases v@.len() - s,
    {
        proof {
            assert(v@.skip(s as int)[0] == v@[s as int]);
            assert(v@.skip(s as int).drop_first() =~= v@.skip(s as int + 1));
        }
        s = s + 1;
    }
    proof {
        if s < v@.len() {
            assert(trim_start_spec(v@.skip(s as int)) == v@.skip(s as int));
        } else {
            assert(v@.skip(s as int) =~= Seq::<char>::empty());
        }
        assert(trim_start_spec(v@) == v@.skip(s as int));
        assert(v@.skip(s as int) =~= v@.subrange(s as int, v@.len() as int));
    }
    let mut e: usize = v.len();
    while e > s && is_blank_char(v[e - 1])
        invariant
            s <= e <= v@.len(),
            trim_spec(v@) == trim_end_spec(v@.subrange(s as int, e as int)),
        decreases e,
    {
        proof {
            let w = v@.subrange(s as int, e as int);
            assert(w.last() == v@[e - 1]);
            assert(w.drop_last() =~= v@.subrange(s as int, e as int - 1));
        }
        e = e - 1;
    }
    proof {
        let w = v@.subrange(s as int, e as int);
        if e > s {
            assert(w.last() == v@[e - 1]);
            assert(trim_end_spec(w) == w);
        } else {
            assert(w =~= Seq::<char>::empty());
        }
        assert(trim_spec(v@) == v@.subrange(s as int, e as int));
    }
    let mut r: Vec<char> = Vec::new();
    let mut i: usize = s;
    while i < e
        invariant
            s <= i <= e <= v@.len(),
            r@ == v@.subrange(s as int, i as int),
        decreases e - i,
    {
        r.push(v[i]);
        proof {
            assert(r@ =~= v@.subrange(s as int, i as int + 1));
        }
        i = i + 1;
    }
    r
}

proof fn lemma_split_nl_push(t: Seq<char>, c: char)
    ensures
        c == '\n' ==> split_nl(t.push(c)) =~~= split_nl(t).push(Seq::<char>::empty()),
        c != '\n' ==> split_nl(t.push(c)) =~~= split_nl(t).update(
            split_nl(t).len() - 1,
            split_nl(t).last().push(c),
        ),
        split_nl(t).len() >= 1,
        split_nl(t.push(c)).len() >= 1,
    decreases t.len(),
{
    lemma_split_nl_nonempty(t);
    lemma_split_nl_nonempty(t.push(c));
    if t.len() == 0 {
        assert(t.push(c)[0] == c);
        assert(t.push(c).drop_first() =~= Seq::<char>::empty());
    } else {
        assert(t.push(c)[0] == t[0]);
        assert(t.push(c).drop_first() =~= t.drop_first().push(c));
        lemma_split_nl_push(t.drop_first(), c);
        lemma_split_nl_nonempty(t.drop_first());
        lemma_split_nl_nonempty(t.drop_first().push(c));
    }
}

proof fn lemma_split_nl_nonempty(t: Seq<char>)
    ensures
        split_nl(t).len() >= 1,
    decreases t.len(),
{
    if t.len() > 0 && t[0] != '\n' {
        lemma_split_nl_nonempty(t.drop_first());
    }
}

fn split_lines(env: &str) -> (r: Vec<Vec<char>>)
    ensures
        r.deep_view() == lines_spec(env@),
{
    let chars = str_to_chars(env);
    let ghost s = env@;
    let mut lines: Vec<Vec<char>> = Vec::new();
    let mut cur: Vec<char> = Vec::new();
    let mut i: usize = 0;
    proof {
        assert(s.take(0) =~= Seq::<char>::empty());
        assert(split_nl(s.take(0)) =~~= seq![Seq::<char>::empty()]);
        assert(lines.deep_view() =~~= split_nl(s.take(0)).drop_last().map_values(
            |l: Seq<char>| strip_cr(l),
        ));
    }
    while i < chars.len()
        invariant
            chars@ == s,
            i <= s.len(),
            split_nl(s.take(i as int)).len() >= 1,
            cur@ == split_nl(s.take(i as int)).last(),
            lines.deep_view() == split_nl(s.take(i as int)).drop_last().map_values(
                |l: Seq<char>| strip_cr(l),
            ),
        decreases s.len() - i,
    {
        let c = chars[i];
        proof {
            assert(s.take(i as int).push(c) =~= s.take(i as int + 1));
            lemma_split_nl_push(s.take(i as int), c);
        }
        let ghost prev = split_nl(s.take(i as int));
        if c == '\n' {
            if cur.len() > 0 && cur[cur.len() - 1] == '\r' {
                cur.pop();
                proof {
                    assert(cur@ =~= strip_cr(prev.last()));
                }
            }
            proof {
                assert(cur@ == strip_cr(prev.last()));
            }
            let ghost dv = lines.deep_view();
            let ghost pushed = cur@;
            lines.push(cur);
            cur = Vec::new();
            proof {
                let f = |l: Seq<char>| strip_cr(l);
                let now = split_nl(s.take(i as int + 1));
                assert(lines.deep_view() =~~= dv.push(pushed));
                assert(now =~~= prev.push(Seq::<char>::empty()));
                assert(now.drop_last() =~~= prev);
                assert(prev.map_values(f) =~~= prev.drop_last().map_values(f).push(
                    f(prev.last()),
                ));
                assert(lines.deep_view() =~~= now.drop_last().map_values(f));
                assert(cur@ =~= now.last());
            }
        } else {
            cur.push(c);
            proof {
                let now = split_nl(s.take(i as int + 1));
                assert(now =~~= prev.update(prev.len() - 1, prev.last().push(c)));
                assert(now.last() =~= prev.last().push(c));
                assert(now.drop_last() =~~= prev.drop_last());
                assert(lines.deep_view() =~~= now.drop_last().map_values(
                    |l: Seq<char>| strip_cr(l),
                ));
            }
        }
        i = i + 1;
    }
    proof {
        assert(s.take(s.len() as int) =~= s);
    }
    if cur.len() > 0 {
        let ghost dv = lines.deep_view();
        let ghost pushed = cur@;
        lines.push(cur);
        proof {
            let segs = split_nl(s);
            let body = segs.drop_last().map_values(|l: Seq<char>| strip_cr(l));
            assert(lines.deep_view() =~~= dv.push(pushed));
            assert(lines.deep_view() =~~= body.push(segs.last()));
            assert(lines.deep_view() =~~= lines_spec(s));
        }
    } else {
        proof {
            assert(lines.deep_view() =~~= lines_spec(s));
        }
    }
    lines
}

/// Look a key up in a decoded multi-line blob of alternating key and value
/// lines: the value is the line after the first line whose trimmed text
/// equals the key.
pub fn env_get_value_for_key(env: &str, key: &str) -> (r: Option<String>)
    ensures
        lookup_spec(env@, key@) matches Some(v) ==> (r matches Some(rs) && rs@ == v),
        lookup_spec(env@, key@) is None ==> r is None,
{
    let lines = split_lines(env);
    let key_chars = str_to_chars(key);
    let ghost lns = lines_spec(env@);
    let ghost m = first_match(lns, key@);
    proof {
        lemma_first_match_props(lns, key@);
    }
    let mut i: usize = 0;
    while i < lines.len()
        invariant
            lns == lines_spec(env@),
            lines.deep_view() == lns,
            lines@.len() == lns.len(),
            key_chars@ == key@,
            i <= lns.len(),
            m == first_match(lns, key@),
            forall|j: int| 0 <= j < i ==> trim_spec(#[trigger] lns[j]) != key@,
            m == -1 || m >= i,
        decreases lns.len() - i,
    {
        proof {
            assert(lines.deep_view()[i as int] == lines@[i as int].deep_view());
            assert(lines@[i as int].deep_view() =~= lines@[i as int]@);
            lemma_first_match_props(lns, key@);
        }
        let trimmed = trim_chars(&lines[i]);
        if chars_eq(&trimmed, &key_chars) {
            proof {
                assert(trim_spec(lns[i as int]) == key@);
                assert(m != -1);
                assert(m == i as int);
            }
            if i + 1 < lines.len() {
                proof {
                    assert(lines.deep_view()[i as int + 1] == lines@[i as int + 1].deep_view());
                    assert(lines@[i as int + 1].deep_view() =~= lines@[i as int + 1]@);
                    assert(lns[i as int + 1] == lines@[i as int + 1]@);
                }
                let v = chars_to_string(&lines[i + 1]);
                proof {
                    assert(lookup_spec(env@, key@) matches Some(w) && v@ == w);
                }
                return Some(v);
            } else {
                proof {
                    assert(lookup_spec(env@, key@) is None);
                }
                return None;
            }
        } else {
            proof {
                assert(trim_spec(lns[i as int]) != key@);
                assert(m != i as int);
            }
        }
        i = i + 1;
    }
    proof {
        assert(m == -1 || m >= lns.len());
        lemma_first_match_props(lns, key@);
    }
    None
}

} // verus!
