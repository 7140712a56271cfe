//! Text helpers, specified over the `Seq<char>` view of strings.

use vstd::prelude::*;
use vstd::string::*;

verus! {

/// The views of a sequence of strings.
pub open spec fn text_views(items: Seq<String>) -> Seq<Seq<char>> {
    items.map_values(|s: String| s@)
}

/// `t` occurs in `s` as a contiguous run of characters.
pub open spec fn has_substring(s: Seq<char>, t: Seq<char>) -> bool {
    exists|i: int| 0 <= i && i + t.len() <= s.len() && #[trigger] s.subrange(i, i + t.len()) == t
}

/// The words joined with a single space between neighbours.
pub open spec fn joined(words: Seq<Seq<char>>) -> Seq<char>
    decreases words.len(),
{
    if words.len() == 0 {
        Seq::empty()
    } else if words.len() == 1 {
        words[0]
    } else {
        joined(words.drop_last()) + seq![' '] + words.last()
    }
}

/// Character `x` has a smaller code point than `y`.
pub open spec fn char_before(x: char, y: char) -> bool {
    (x as int) < (y as int)
}

/// `a` and `b` agree on their first `k` characters and `a` comes first by what
/// follows: it ends there while `b` goes on, or its next character is smaller.
pub open spec fn precedes_at(a: Seq<char>, b: Seq<char>, k: int) -> bool {
    &&& 0 <= k <= a.len()
    &&& k < b.len()
    &&& a.take(k) == b.take(k)
    &&& k < a.len() ==> char_before(a[k], b[k])
}

/// `a` comes strictly before `b` when strings are ordered character by
/// character (by code point), a proper prefix coming before its extensions.
pub open spec fn lex_less(a: Seq<char>, b: Seq<char>) -> bool {
    exists|k: int| precedes_at(a, b, k)
}

/// How one string stands to another in the order of `lex_less`.
#[derive(Clone, Copy, Debug, PartialEq, Eq, Structural)]
pub enum Precedence {
    Before,
    Same,
    After,
}

/// No string comes before itself.
pub proof fn lemma_lex_less_irreflexive(a: Seq<char>)
    ensures
        !lex_less(a, a),
{
}

/// The order of `lex_less` is transitive.
pub proof fn lemma_lex_less_transitive(a: Seq<char>, b: Seq<char>, c: Seq<char>)
    requires
        lex_less(a, b),
        lex_less(b, c),
    ensures
        lex_less(a, c),
{
    let k1 = choose|k: int| precedes_at(a, b, k);
    let k2 = choose|k: int| precedes_at(b, c, k);
    let k = if k1 <= k2 { k1 } else { k2 };
    assert(a.take(k) =~= a.take(k1).take(k));
    assert(b.take(k) =~= b.take(k1).take(k));
    assert(b.take(k) =~= b.take(k2).take(k));
    assert(c.take(k) =~= c.take(k2).take(k));
    if k1 < k2 {
        assert(b.take(k2)[k1] == b[k1]);
        assert(c.take(k2)[k1] == c[k1]);
    }
    if k2 < k1 {
        assert(a.take(k1)[k2] == a[k2]);
        assert(b.take(k1)[k2] == b[k2]);
    }
    assert(precedes_at(a, c, k));
}

/// The characters of a string, in order.
pub fn chars_of(s: &str) -> (v: Vec<char>)
    ensures
        v@ == s@,
{
    let mut v: Vec<char> = Vec::new();
    for c in it: s.chars()
        invariant
            v@ == it.seq().take(it.index() as int),
    {
        v.push(c);
    }
    v
}

/// Whether two strings hold the same characters.
pub fn same_text(a: &str, b: &str) -> (r: bool)
    ensures
        r == (a@ == b@),
{
    let x = a.to_owned();
    let y = b.to_owned();
    x == y
}

/// Whether `t` stands in `s` at position `at`.
fn chars_match_at(s: &Vec<char>, t: &Vec<char>, at: usize) -> (r: bool)
    requires
        at + t@.len() <= s@.len(),
    ensures
        r == (s@.subrange(at as int, at + t@.len()) == t@),
{
    let mut i: usize = 0;
    while i < t.len()
        invariant
            i <= t.len(),
            at + t.len() <= s.len(),
            forall|j: int| 0 <= j < i ==> s@[at + j] == t@[j],
        decreases t.len() - i,
    {
        if s[at + i] != t[i] {
            assert(s@.subrange(at as int, at + t@.len())[i as int] != t@[i as int]);
            return false;
        }
        i += 1;
    }
    assert(s@.subrange(at as int, at + t@.len()) =~= t@);
    true
}

/// Whether `s` begins with `prefix`.
pub fn starts_with(s: &str, prefix: &str) -> (r: bool)
    ensures
        r == prefix@.is_prefix_of(s@),
{
    let sc = chars_of(s);
    let pc = chars_of(prefix);
    if pc.len() > sc.len() {
        return false;
    }
    chars_match_at(&sc, &pc, 0)
}

/// Whether `s` ends with `suffix`.
pub fn ends_with(s: &str, suffix: &str) -> (r: bool)
    ensures
        r == suffix@.is_suffix_of(s@),
{
    let sc = chars_of(s);
    let tc = chars_of(suffix);
    if tc.len() > sc.len() {
        return false;
    }
    chars_match_at(&sc, &tc, sc.len() - tc.len())
}

/// Whether `t` occurs somewhere in `s`.
pub fn contains(s: &str, t: &str) -> (r: bool)
    ensures
        r == has_substring(s@, t@),
{
    let sc = chars_of(s);
    let tc = chars_of(t);
    if tc.len() > sc.len() {
        return false;
    }
    let last: usize = sc.len() - tc.len();
    let mut i: usize = 0;
    loop
        invariant
            i <= last,
            last + tc@.len() == sc@.len(),
            sc@ == s@,
            tc@ == t@,
            forall|j: int| 0 <= j < i ==> #[trigger] sc@.subrange(j, j + tc@.len()) != tc@,
        decreases last - i,
    {
        if chars_match_at(&sc, &tc, i) {
            return true;
        }
        if i == last {
            return false;
        }
        i += 1;
    }
}

/// How `a` stands to `b` in code-point order.
pub fn compare(a: &str, b: &str) -> (r: Precedence)
    ensures
        r == Precedence::Before <==> lex_less(a@, b@),
        r == Precedence::Same <==> a@ == b@,
        r == Precedence::After <==> lex_less(b@, a@),
{
    let ac = chars_of(a);
    let bc = chars_of(b);
    let mut i: usize = 0;
    while i < ac.len() && i < bc.len()
        invariant
            i <= ac.len(),
            i <= bc.len(),
            ac@ == a@,
            bc@ == b@,
            ac@.take(i as int) == bc@.take(i as int),
        decreases ac.len() - i,
    {
        if ac[i] < bc[i] {
            proof {
                lemma_first_difference(ac@, bc@, i as int);
                lemma_first_difference(bc@, ac@, i as int);
            }
            return Precedence::Before;
        }
        if bc[i] < ac[i] {
            proof {
                lemma_first_difference(ac@, bc@, i as int);
                lemma_first_difference(bc@, ac@, i as int);
            }
            return Precedence::After;
        }
        assert(ac@.take(i + 1) =~= ac@.take(i as int).push(ac@[i as int]));
        assert(bc@.take(i + 1) =~= bc@.take(i as int).push(bc@[i as int]));
        i += 1;
    }
    proof {
        lemma_first_difference(ac@, bc@, i as int);
        lemma_first_difference(bc@, ac@, i as int);
    }
    if i < bc.len() {
        Precedence::Before
    } else if i < ac.len() {
        Precedence::After
    } else {
        assert(ac@ =~= ac@.take(i as int));
        assert(bc@ =~= bc@.take(i as int));
        Precedence::Same
    }
}

/// Two strings that agree on their first `k` characters, and end or differ
/// there, are ordered by what stands at `k` alone.
proof fn lemma_first_difference(a: Seq<char>, b: Seq<char>, k: int)
    requires
        0 <= k <= a.len(),
        k <= b.len(),
        a.take(k) == b.take(k),
        k == a.len() || k == b.len() || a[k] != b[k],
    ensures
        lex_less(a, b) <==> precedes_at(a, b, k),
        a == b <==> k == a.len() && k == b.len(),
{
    if lex_less(a, b) {
        let j = choose|j: int| precedes_at(a, b, j);
        if j < k {
            assert(a.take(k)[j] == a[j]);
            assert(b.take(k)[j] == b[j]);
        } else if j > k {
            assert(a.take(j)[k] == b.take(j)[k]);
            assert(a[k] == b[k]);
        }
        assert(j == k);
    }
    if k == a.len() && k == b.len() {
        assert(a =~= a.take(k));
        assert(b =~= b.take(k));
    }
    if a == b {
        if k < a.len() {
            assert(a[k] == b[k]);
        }
    }
}

/// The words joined with single spaces.
pub fn join_words(words: &[String]) -> (r: String)
    ensures
        r@ == joined(words@.map_values(|w: String| w@)),
{
    let ghost views = words@.map_values(|w: String| w@);
    let mut out = String::new();
    let mut i: usize = 0;
    while i < words.len()
        invariant
            i <= words.len(),
            views == words@.map_values(|w: String| w@),
            out@ == joined(views.take(i as int)),
        decreases words.len() - i,
    {
        proof {
            reveal_strlit(" ");
            assert(views.take(i + 1).drop_last() =~= views.take(i as int));
            assert(" "@ =~= seq![' ']);
        }
        if i > 0 {
            out.append(" ");
        }
        out.append(words[i].as_str());
        i += 1;
    }
    assert(views.take(words@.len() as int) =~= views);
    out
}

/// The first `n` characters of `s`, or all of it if it is shorter.
pub fn first_chars(s: &str, n: usize) -> (r: String)
    ensures
        r@ == s@.take(if n <= s@.len() { n as int } else { s@.len() as int }),
{
    let len = s.unicode_len();
    let k = if n <= len { n } else { len };
    s.substring_char(0, k).to_owned()
}

/// What `str::to_lowercase` makes of a string: each character replaced by its
/// Unicode lowercase mapping.
pub uninterp spec fn lowercase(s: Seq<char>) -> Seq<char>;

/// `str::to_lowercase`. The result is the lowercase form named by
/// `lowercase`; nothing more is claimed of it.
#[verifier::external_body]
fn to_lowercase(s: &str) -> (r: String)
    ensures
        r@ == lowercase(s@),
{
    s.to_lowercase()
}

/// Whether `t` occurs in `s` when both are folded to lowercase.
pub fn contains_ignoring_case(s: &str, t: &str) -> (r: bool)
    ensures
        r == has_substring(lowercase(s@), lowercase(t@)),
{
    let ls = to_lowercase(s);
    let lt = to_lowercase(t);
    contains(ls.as_str(), lt.as_str())
}

} // verus!
