//! The entrypoint list: the text of a newline-delimited file naming the
//! units designated as directly required, and the rules that turn that
//! text into the entrypoint name set — lines are trimmed, and empty lines
//! and comment lines (starting with `#`) are dropped.

use vstd::prelude::*;

use crate::order::name_view_seq;

verus! {

/// The characters with the Unicode White_Space property: the characters
/// that trimming removes from the ends of a line.
pub open spec fn is_space_char(c: char) -> bool {
    ||| c == '\u{0009}'
    ||| c == '\u{000a}'
    ||| c == '\u{000b}'
    ||| c == '\u{000c}'
    ||| c == '\u{000d}'
    ||| c == ' '
    ||| c == '\u{0085}'
    ||| c == '\u{00a0}'
    ||| c == '\u{1680}'
    ||| ('\u{2000}' <= c && c <= '\u{200a}')
    ||| c == '\u{2028}'
    ||| c == '\u{2029}'
    ||| c == '\u{202f}'
    ||| c == '\u{205f}'
    ||| c == '\u{3000}'
}

/// `s` without its leading whitespace.
pub open spec fn trim_start_spec(s: Seq<char>) -> Seq<char>
    decreases s.len(),
{
    if s.len() > 0 && is_space_char(s[0]) {
        trim_start_spec(s.drop_first())
    } else {
        s
    }
}

/// `s` without its trailing whitespace.
pub open spec fn trim_end_spec(s: Seq<char>) -> Seq<char>
    decreases s.len(),
{
    if s.len() > 0 && is_space_char(s.last()) {
        trim_end_spec(s.drop_last())
    } else {
        s
    }
}

/// `s` without leading and trailing whitespace.
pub open spec fn trim_spec(s: Seq<char>) -> Seq<char> {
    trim_end_spec(trim_start_spec(s))
}

/// The position of the first newline of `s`, or `s.len()` if there is
/// none.
pub open spec fn first_newline(s: Seq<char>) -> int
    decreases s.len(),
{
    if s.len() == 0 {
        0
    } else if s[0] == '\n' {
        0
    } else {
        1 + first_newline(s.drop_first())
    }
}

/// A trimmed line is kept iff it is non-empty and not a comment.
pub open spec fn keeps_line(line: Seq<char>) -> bool {
    line.len() > 0 && line[0] != '#'
}

/// The entrypoint names of the text `s`: each line up to a newline,
/// trimmed, the empty and comment lines dropped, in line order.
pub open spec fn entrypoint_names(s: Seq<char>) -> Seq<Seq<char>>
    decreases s.len(),
{
    if s.len() == 0 {
        Seq::empty()
    } else {
        let j0 = first_newline(s);
        let j = if 0 <= j0 <= s.len() {
            j0
        } else {
            s.len() as int
        };
        let line = trim_spec(s.subrange(0, j));
        let head: Seq<Seq<char>> = if keeps_line(line) {
            seq![line]
        } else {
            Seq::empty()
        };
        if j == s.len() {
            head
        } else {
            head + entrypoint_names(s.subrange(j + 1, s.len() as int))
        }
    }
}

/// `names` with every repetition of an earlier name removed: each
/// distinct name once, at its first occurrence.
pub open spec fn dedup_first(names: Seq<Seq<char>>) -> Seq<Seq<char>>
    decreases names.len(),
{
    if names.len() == 0 {
        Seq::empty()
    } else {
        let rest = dedup_first(names.drop_last());
        if rest.contains(names.last()) {
            rest
        } else {
            rest.push(names.last())
        }
    }
}

/// Removing repetitions keeps membership: the deduplicated list holds
/// exactly the names the original holds.
pub proof fn lemma_dedup_first_contains(names: Seq<Seq<char>>)
    ensures
        forall|t: Seq<char>| #[trigger] dedup_first(names).contains(t) <==> names.contains(t),
    decreases names.len(),
{
    if names.len() > 0 {
        let prefix = names.drop_last();
        let rest = dedup_first(prefix);
        let last = names.last();
        let dd = dedup_first(names);
        lemma_dedup_first_contains(prefix);
        assert forall|t: Seq<char>| #[trigger] dd.contains(t) implies names.contains(t) by {
            let m = choose|m: int| 0 <= m < dd.len() && (#[trigger] dd[m]) == t;
            if !rest.contains(last) && m == rest.len() {
                assert(dd == rest.push(last));
                assert(t == last);
                assert(names[names.len() - 1] == t);
            } else {
                assert(rest[m] == t);
                assert(rest.contains(t));
                assert(prefix.contains(t));
                let k = choose|k: int| 0 <= k < prefix.len() && (#[trigger] prefix[k]) == t;
                assert(names[k] == t);
            }
        }
        assert forall|t: Seq<char>| #[trigger] names.contains(t) implies dd.contains(t) by {
            let k = choose|k: int| 0 <= k < names.len() && (#[trigger] names[k]) == t;
            if k < names.len() - 1 {
                assert(prefix[k] == t);
                assert(prefix.contains(t));
                assert(rest.contains(t));
                let m = choose|m: int| 0 <= m < rest.len() && (#[trigger] rest[m]) == t;
                assert(dd[m] == t);
            } else {
                assert(t == last);
                if rest.contains(last) {
                    assert(dd == rest);
                    let m = choose|m: int| 0 <= m < rest.len() && (#[trigger] rest[m]) == t;
                    assert(dd[m] == t);
                } else {
                    assert(dd == rest.push(last));
                    assert(dd[dd.len() - 1] == t);
                }
            }
        }
    }
}

/// The deduplicated list holds no name twice.
pub proof fn lemma_dedup_first_distinct(names: Seq<Seq<char>>)
    ensures
        forall|i: int, j: int|
            0 <= i < j < dedup_first(names).len() ==> (#[trigger] dedup_first(names)[i]) != (
            #[trigger] dedup_first(names)[j]),
    decreases names.len(),
{
    if names.len() > 0 {
        let rest = dedup_first(names.drop_last());
        lemma_dedup_first_distinct(names.drop_last());
        if !rest.contains(names.last()) {
            assert forall|i: int, j: int|
                0 <= i < j < dedup_first(names).len() implies (#[trigger] dedup_first(names)[i])
                != (#[trigger] dedup_first(names)[j]) by {
                if j == dedup_first(names).len() - 1 {
                    assert(rest.contains(rest[i]));
                }
            }
        }
    }
}

/// `first_newline` is the position of the first newline: everything
/// before it is another character, and it is a newline when it is not the
/// end.
proof fn lemma_first_newline_is(s: Seq<char>, j: int)
    requires
        0 <= j <= s.len(),
        forall|m: int| 0 <= m < j ==> s[m] != '\n',
        j < s.len() ==> s[j] == '\n',
    ensures
        first_newline(s) == j,
    decreases s.len(),
{
    if s.len() > 0 && s[0] != '\n' {
        let t = s.drop_first();
        assert forall|m: int| 0 <= m < j - 1 implies t[m] != '\n' by {
            assert(t[m] == s[m + 1]);
        }
        lemma_first_newline_is(t, j - 1);
    }
}

/// Trimming the start removes exactly the leading whitespace run.
proof fn lemma_trim_start_is(s: Seq<char>, a: int)
    requires
        0 <= a <= s.len(),
        forall|m: int| 0 <= m < a ==> is_space_char(s[m]),
        a < s.len() ==> !is_space_char(s[a]),
    ensures
        trim_start_spec(s) == s.subrange(a, s.len() as int),
    decreases s.len(),
{
    if a == 0 {
        assert(s.subrange(0, s.len() as int) =~= s);
    } else {
        let t = s.drop_first();
        assert forall|m: int| 0 <= m < a - 1 implies is_space_char(t[m]) by {
            assert(t[m] == s[m + 1]);
        }
        lemma_trim_start_is(t, a - 1);
        assert(t.subrange(a - 1, t.len() as int) =~= s.subrange(a, s.len() as int));
    }
}

/// Trimming the end removes exactly the trailing whitespace run.
proof fn lemma_trim_end_is(s: Seq<char>, b: int)
    requires
        0 <= b <= s.len(),
        forall|m: int| b <= m < s.len() ==> is_space_char(s[m]),
        b > 0 ==> !is_space_char(s[b - 1]),
    ensures
        trim_end_spec(s) == s.subrange(0, b),
    decreases s.len(),
{
    if b == s.len() {
        assert(s.subrange(0, b) =~= s);
    } else {
        let t = s.drop_last();
        lemma_trim_end_is(t, b);
        assert(t.subrange(0, b) =~= s.subrange(0, b));
    }
}

/// Whether trimming removes `c`.
fn is_space(c: char) -> (r: bool)
    ensures
        r == is_space_char(c),
{
    c == '\u{0009}' || c == '\u{000a}' || c == '\u{000b}' || c == '\u{000c}' || c == '\u{000d}'
        || c == ' ' || c == '\u{0085}' || c == '\u{00a0}' || c == '\u{1680}' || ('\u{2000}' <= c
        && c <= '\u{200a}') || c == '\u{2028}' || c == '\u{2029}' || c == '\u{202f}' || c
        == '\u{205f}' || c == '\u{3000}'
}

/// Whether one of `names` has exactly the characters of `name`.
fn contains_string(names: &Vec<String>, name: &String) -> (r: bool)
    ensures
        r == name_view_seq(names@).contains(name@),
{
    let mut j: usize = 0;
    while j < names.len()
        invariant
            j <= names@.len(),
            forall|k: int| 0 <= k < j ==> (#[trigger] names@[k])@ != name@,
        decreases names@.len() - j,
    {
        if names[j].eq(name) {
            proof {
                assert(name_view_seq(names@)[j as int] == name@);
            }
            return true;
        }
        j += 1;
    }
    proof {
        if name_view_seq(names@).contains(name@) {
            let k = choose|k: int|
                0 <= k < names@.len() && (#[trigger] name_view_seq(names@)[k]) == name@;
            assert(names@[k]@ == name@);
        }
    }
    false
}

/// The text of an entrypoint list file.
pub struct Entrypoints(String);

impl View for Entrypoints {
    type V = Seq<char>;

    closed spec fn view(&self) -> Seq<char> {
        self.0@
    }
}

impl Entrypoints {
    /// Wraps the text of an entrypoint list.
    pub fn new(content: String) -> (r: Entrypoints)
        ensures
            r@ == content@,
    {
        Entrypoints(content)
    }

    /// The entrypoint unit name set: every line of the text, trimmed, the
    /// empty lines and the comment lines (starting with `#`) left out, and
    /// each distinct name kept exactly once, at its first occurrence.
    pub fn get(&self) -> (r: Vec<String>)
        ensures
            name_view_seq(r@) == dedup_first(entrypoint_names(self@)),
            forall|t: Seq<char>|
                #[trigger] name_view_seq(r@).contains(t) <==> entrypoint_names(self@).contains(t),
            forall|i: int, j: int|
                0 <= i < j < r@.len() ==> (#[trigger] r@[i])@ != (#[trigger] r@[j])@,
    {
        let s: &str = self.0.as_str();
        let n = s.unicode_len();
        let mut result: Vec<String> = Vec::new();
        let ghost mut raw: Seq<Seq<char>> = Seq::empty();
        let mut i: usize = 0;
        proof {
            assert(s@.skip(0) =~= s@);
            assert(name_view_seq(result@) =~= Seq::<Seq<char>>::empty());
            assert(Seq::<Seq<char>>::empty() + entrypoint_names(s@) =~= entrypoint_names(s@));
        }
        while i < n
            invariant
                n == s@.len(),
                s@ == self@,
                i <= n,
                raw + entrypoint_names(s@.skip(i as int)) == entrypoint_names(s@),
                name_view_seq(result@) == dedup_first(raw),
            decreases n - i,
        {
            let mut j: usize = i;
            while j < n && s.get_char(j) != '\n'
                invariant
                    n == s@.len(),
                    i <= j <= n,
                    forall|m: int| i <= m < j ==> s@[m] != '\n',
                decreases n - j,
            {
                j += 1;
            }
            let mut a: usize = i;
            while a < j && is_space(s.get_char(a))
                invariant
                    n == s@.len(),
                    j <= n,
                    i <= a <= j,
                    forall|m: int| i <= m < a ==> is_space_char(s@[m]),
                decreases j - a,
            {
                a += 1;
            }
            let mut b: usize = j;
            while b > a && is_space(s.get_char(b - 1))
                invariant
                    n == s@.len(),
                    j <= n,
                    a <= b <= j,
                    forall|m: int| b <= m < j ==> is_space_char(s@[m]),
                decreases b,
            {
                b -= 1;
            }
            let ghost t = s@.skip(i as int);
            let ghost line = s@.subrange(i as int, j as int);
            let ghost trimmed = s@.subrange(a as int, b as int);
            proof {
                assert(t.len() > 0);
                assert forall|m: int| 0 <= m < j - i implies t[m] != '\n' by {
                    assert(t[m] == s@[m + i]);
                }
                if j < n {
                    assert(t[j - i] == s@[j as int]);
                }
                lemma_first_newline_is(t, j - i);
                assert(t.subrange(0, j - i) =~= line);
                assert forall|m: int| 0 <= m < a - i implies is_space_char(line[m]) by {
                    assert(line[m] == s@[m + i]);
                }
                if a < j {
                    assert(line[a - i] == s@[a as int]);
                }
                lemma_trim_start_is(line, a - i);
                let mid = line.subrange(a - i, line.len() as int);
                assert forall|m: int| b - a <= m < mid.len() implies is_space_char(mid[m]) by {
                    assert(mid[m] == s@[m + a]);
                }
                if b > a {
                    assert(mid[b - a - 1] == s@[b - 1]);
                }
                lemma_trim_end_is(mid, b - a);
                assert(mid.subrange(0, b - a) =~= trimmed);
                assert(trim_spec(line) == trimmed);
            }
            let keep = if a < b {
                s.get_char(a) != '#'
            } else {
                false
            };
            let ghost res0 = result@;
            let ghost head: Seq<Seq<char>> = if keeps_line(trimmed) {
                seq![trimmed]
            } else {
                Seq::empty()
            };
            if keep {
                let piece = s.substring_char(a, b).to_owned();
                let already = contains_string(&result, &piece);
                proof {
                    assert(piece@ == trimmed);
                    assert(raw + seq![trimmed] =~= raw.push(trimmed));
                    assert(raw.push(trimmed).drop_last() =~= raw);
                }
                if !already {
                    result.push(piece);
                    proof {
                        assert(name_view_seq(result@) =~= name_view_seq(res0).push(trimmed));
                        assert(dedup_first(raw.push(trimmed)) == dedup_first(raw).push(trimmed));
                    }
                } else {
                    proof {
                        assert(dedup_first(raw.push(trimmed)) == dedup_first(raw));
                    }
                }
            }
            proof {
                assert(trimmed.len() == b - a);
                if a < b {
                    assert(trimmed[0] == s@[a as int]);
                }
                assert(keep == keeps_line(trimmed));
                if !keep {
                    assert(raw + head =~= raw);
                }
                assert(name_view_seq(result@) == dedup_first(raw + head));
                if j < n {
                    assert(entrypoint_names(t) == head + entrypoint_names(
                        t.subrange(j - i + 1, t.len() as int),
                    ));
                    assert(t.subrange(j - i + 1, t.len() as int) =~= s@.skip(j + 1));
                    assert((raw + head) + entrypoint_names(s@.skip(j + 1)) =~= (raw + (head
                        + entrypoint_names(s@.skip(j + 1)))));
                } else {
                    assert(entrypoint_names(t) == head);
                    assert(s@.skip(n as int).len() == 0);
                    assert(entrypoint_names(s@.skip(n as int)) =~= Seq::<Seq<char>>::empty());
                    assert((raw + head) + Seq::<Seq<char>>::empty() =~= (raw + head));
                }
                raw = raw + head;
            }
            if j < n {
                i = j + 1;
            } else {
                i = n;
            }
        }
        proof {
            assert(s@.skip(n as int).len() == 0);
            assert(entrypoint_names(s@.skip(n as int)) =~= Seq::<Seq<char>>::empty());
            assert(raw + Seq::<Seq<char>>::empty() =~= raw);
            assert(raw == entrypoint_names(self@));
            lemma_dedup_first_contains(raw);
            lemma_dedup_first_distinct(raw);
            assert forall|i: int, j: int| 0 <= i < j < result@.len() implies (
            #[trigger] result@[i])@ != (#[trigger] result@[j])@ by {
                assert(name_view_seq(result@)[i] == result@[i]@);
                assert(name_view_seq(result@)[j] == result@[j]@);
            }
        }
        result
    }
}

} // verus!
