//! Character sequences: the conversions between strings and vectors of
//! characters, and the few editing operations the description parser needs.
//!
//! Every operation is stated over `Seq<char>`; the executable functions work
//! on `Vec<char>`, so that a position in the text is reached in one step.
use vstd::prelude::*;

verus! {

/// `String::push` appends one character to the end of the string.
pub assume_specification[ String::push ](s: &mut String, c: char)
    ensures
        final(s)@ == old(s)@.push(c),
;

/// The characters of `s`, in order.
pub fn chars_of(s: &str) -> (r: Vec<char>)
    ensures
        r@ == s@,
{
    let mut r: Vec<char> = Vec::new();
    for c in it: s.chars()
        invariant
            it.seq() == s@,
            r@ == s@.take(it.index() as int),
    {
        r.push(c);
    }
    r
}

/// The string made of the characters of `v`, in order.
pub fn string_of(v: &Vec<char>) -> (r: String)
    ensures
        r@ == v@,
{
    let mut r = String::new();
    let mut i: usize = 0;
    while i < v.len()
        invariant
            i <= v.len(),
            r@ == v@.take(i as int),
        decreases v.len() - i,
    {
        r.push(v[i]);
        i += 1;
    }
    r
}

/// The views of a sequence of strings.
pub open spec fn views(v: Seq<String>) -> Seq<Seq<char>> {
    v.map_values(|s: String| s@)
}

/// A space or a tab: the characters that formatting scatters through a
/// description file.
pub open spec fn is_blank(c: char) -> bool {
    c == ' ' || c == '\t'
}

/// `s` with every space and every tab taken out.
pub open spec fn without_blanks(s: Seq<char>) -> Seq<char> {
    s.filter(|c: char| !is_blank(c))
}

/// Takes every space and every tab out of `text`.
pub fn strip_blanks(text: &Vec<char>) -> (r: Vec<char>)
    ensures
        r@ == without_blanks(text@),
{
    let mut r: Vec<char> = Vec::new();
    let mut i: usize = 0;
    while i < text.len()
        invariant
            i <= text.len(),
            r@ == without_blanks(text@.take(i as int)),
        decreases text.len() - i,
    {
        let c = text[i];
        proof {
            assert(text@.take(i + 1) == text@.take(i as int).push(c));
            text@.take(i as int).lemma_filter_push(c, |c: char| !is_blank(c));
        }
        if !(c == ' ' || c == '\t') {
            r.push(c);
        }
        i += 1;
    }
    proof {
        assert(text@.take(text.len() as int) == text@);
    }
    r
}

/// `pat` stands in `s` at position `i`.
pub open spec fn occurs_at(s: Seq<char>, i: int, pat: Seq<char>) -> bool {
    0 <= i && i + pat.len() <= s.len() && s.subrange(i, i + pat.len()) == pat
}

/// `pat` stands somewhere in `s`.
pub open spec fn occurs_in(s: Seq<char>, pat: Seq<char>) -> bool {
    exists|i: int| occurs_at(s, i, pat)
}

/// Tells whether `pat` stands in `text` at position `i`.
pub fn stands_at(text: &Vec<char>, i: usize, pat: &Vec<char>) -> (r: bool)
    ensures
        r == occurs_at(text@, i as int, pat@),
{
    if i > text.len() || pat.len() > text.len() - i {
        return false;
    }
    let mut k: usize = 0;
    while k < pat.len()
        invariant
            k <= pat.len(),
            i + pat.len() <= text.len(),
            forall|j: int| 0 <= j < k ==> text@[i + j] == pat@[j],
        decreases pat.len() - k,
    {
        if text[i + k] != pat[k] {
            proof {
                let sub = text@.subrange(i as int, i + pat.len());
                assert(sub[k as int] == text@[i + k]);
            }
            return false;
        }
        k += 1;
    }
    proof {
        assert(text@.subrange(i as int, i + pat.len()) =~= pat@);
    }
    true
}

/// The first position at or after `from` where `pat` stands in `s`, if there
/// is one.
pub open spec fn first_occurrence(s: Seq<char>, pat: Seq<char>, from: int) -> Option<int>
    decreases s.len() + 1 - from,
{
    if from < 0 || from + pat.len() > s.len() {
        None
    } else if occurs_at(s, from, pat) {
        Some(from)
    } else {
        first_occurrence(s, pat, from + 1)
    }
}

/// What `first_occurrence` finds is an occurrence, and none stands before it;
/// where it finds nothing, there is none at or after `from`.
pub proof fn lemma_first_occurrence(s: Seq<char>, pat: Seq<char>, from: int)
    requires
        0 <= from,
    ensures
        match first_occurrence(s, pat, from) {
            Some(i) => from <= i && occurs_at(s, i, pat) && forall|j: int|
                from <= j < i ==> !occurs_at(s, j, pat),
            None => forall|j: int| from <= j ==> !occurs_at(s, j, pat),
        },
    decreases s.len() + 1 - from,
{
    if from + pat.len() > s.len() {
    } else if occurs_at(s, from, pat) {
    } else {
        lemma_first_occurrence(s, pat, from + 1);
    }
}

/// Finds the first position at or after `from` where `pat` stands in `text`.
pub fn find(text: &Vec<char>, pat: &Vec<char>, from: usize) -> (r: Option<usize>)
    ensures
        match r {
            Some(i) => first_occurrence(text@, pat@, from as int) == Some(i as int) && from <= i
                && i + pat.len() <= text.len() && occurs_at(text@, i as int, pat@) && forall|
                j: int,
            | from <= j < i ==> !occurs_at(text@, j, pat@),
            None => first_occurrence(text@, pat@, from as int).is_none() && forall|j: int|
                from <= j ==> !occurs_at(text@, j, pat@),
        },
{
    let mut i: usize = from;
    while i <= text.len() && pat.len() <= text.len() - i
        invariant
            from <= i,
            first_occurrence(text@, pat@, from as int) == first_occurrence(text@, pat@, i as int),
        decreases text.len() + 1 - i,
    {
        if stands_at(text, i, pat) {
            proof {
                lemma_first_occurrence(text@, pat@, from as int);
            }
            return Some(i);
        }
        proof {
            if i == text.len() {
                assert(text@.subrange(i as int, i + pat.len()) =~= pat@);
            }
        }
        i += 1;
    }
    proof {
        lemma_first_occurrence(text@, pat@, from as int);
    }
    None
}

/// `s` with the occurrences of `pat` taken out, found from the left and
/// without overlap. An empty `pat` takes nothing out.
pub open spec fn without(s: Seq<char>, pat: Seq<char>) -> Seq<char>
    decreases s.len(),
{
    if s.len() == 0 {
        s
    } else if pat.len() > 0 && occurs_at(s, 0, pat) {
        without(s.skip(pat.len() as int), pat)
    } else {
        seq![s[0]] + without(s.skip(1), pat)
    }
}

/// Takes the occurrences of `pat` out of `text`, found from the left and
/// without overlap.
pub fn remove_all(text: &Vec<char>, pat: &Vec<char>) -> (r: Vec<char>)
    ensures
        r@ == without(text@, pat@),
{
    let mut r: Vec<char> = Vec::new();
    let mut i: usize = 0;
    proof {
        assert(text@.skip(0) == text@);
        assert(r@ + without(text@, pat@) == without(text@, pat@));
    }
    while i < text.len()
        invariant
            i <= text.len(),
            r@ + without(text@.skip(i as int), pat@) == without(text@, pat@),
        decreases text.len() - i,
    {
        let ghost rest = text@.skip(i as int);
        if pat.len() > 0 && stands_at(text, i, pat) {
            proof {
                assert(rest.subrange(0, pat.len() as int) == text@.subrange(
                    i as int,
                    i + pat.len(),
                ));
                assert(rest.skip(pat.len() as int) == text@.skip(i + pat.len()));
            }
            i += pat.len();
        } else {
            proof {
                if pat.len() > 0 && occurs_at(rest, 0, pat@) {
                    assert(rest.subrange(0, pat.len() as int) == text@.subrange(
                        i as int,
                        i + pat.len(),
                    ));
                }
                assert(rest.skip(1) == text@.skip(i + 1));
                assert(r@.push(text@[i as int]) + without(rest.skip(1), pat@) == r@ + (seq![
                    rest[0],
                ] + without(rest.skip(1), pat@)));
            }
            r.push(text[i]);
            i += 1;
        }
    }
    proof {
        assert(r@ + Seq::<char>::empty() == r@);
    }
    r
}

/// Taking out never lengthens.
pub proof fn lemma_without_len(s: Seq<char>, pat: Seq<char>)
    ensures
        without(s, pat).len() <= s.len(),
    decreases s.len(),
{
    if s.len() == 0 {
    } else if pat.len() > 0 && occurs_at(s, 0, pat) {
        lemma_without_len(s.skip(pat.len() as int), pat);
    } else {
        lemma_without_len(s.skip(1), pat);
    }
}

/// A text in which `pat` does not stand is left as it is.
pub proof fn lemma_without_absent(s: Seq<char>, pat: Seq<char>)
    requires
        !occurs_in(s, pat),
    ensures
        without(s, pat) == s,
    decreases s.len(),
{
    if s.len() == 0 {
    } else {
        assert(!occurs_at(s, 0, pat));
        assert forall|i: int| !occurs_at(s.skip(1), i, pat) by {
            if occurs_at(s.skip(1), i, pat) {
                assert(s.skip(1).subrange(i, i + pat.len()) == s.subrange(
                    i + 1,
                    i + 1 + pat.len(),
                ));
                assert(occurs_at(s, i + 1, pat));
            }
        }
        lemma_without_absent(s.skip(1), pat);
        assert(seq![s[0]] + s.skip(1) == s);
    }
}

/// A text in which a non-empty `pat` stands gets shorter.
pub proof fn lemma_without_present(s: Seq<char>, pat: Seq<char>)
    requires
        pat.len() > 0,
        occurs_in(s, pat),
    ensures
        without(s, pat).len() < s.len(),
    decreases s.len(),
{
    let k = choose|i: int| occurs_at(s, i, pat);
    if pat.len() > 0 && occurs_at(s, 0, pat) {
        lemma_without_len(s.skip(pat.len() as int), pat);
    } else {
        assert(k > 0);
        assert(s.skip(1).subrange(k - 1, k - 1 + pat.len()) == s.subrange(k, k + pat.len()));
        assert(occurs_at(s.skip(1), k - 1, pat));
        lemma_without_present(s.skip(1), pat);
    }
}

/// The text between the first occurrence of `start` and the line feed that
/// follows it; where no line feed follows, the text runs to the end. `None`
/// where `start` does not stand in `s`.
pub open spec fn value_after(s: Seq<char>, start: Seq<char>) -> Option<Seq<char>> {
    match first_occurrence(s, start, 0) {
        None => None,
        Some(at) => {
            let from = at + start.len();
            match first_occurrence(s, seq!['\n'], from) {
                Some(to) => Some(s.subrange(from, to)),
                None => Some(s.subrange(from, s.len() as int)),
            }
        },
    }
}

/// The characters of `text` from `from` up to `to`.
pub fn slice(text: &Vec<char>, from: usize, to: usize) -> (r: Vec<char>)
    requires
        from <= to <= text.len(),
    ensures
        r@ == text@.subrange(from as int, to as int),
{
    let mut r: Vec<char> = Vec::new();
    let mut i: usize = from;
    while i < to
        invariant
            from <= i <= to <= text.len(),
            r@ == text@.subrange(from as int, i as int),
        decreases to - i,
    {
        r.push(text[i]);
        proof {
            assert(text@.subrange(from as int, i + 1) == text@.subrange(from as int, i as int).push(
                text@[i as int],
            ));
        }
        i += 1;
    }
    r
}

/// Reads the value that follows the first occurrence of `start`, up to the
/// end of its line.
pub fn read_value_after(text: &Vec<char>, start: &Vec<char>) -> (r: Option<Vec<char>>)
    ensures
        match r {
            Some(v) => value_after(text@, start@) == Some(v@),
            None => value_after(text@, start@).is_none(),
        },
{
    match find(text, start, 0) {
        None => None,
        Some(at) => {
            let from: usize = at + start.len();
            let mut line_feed: Vec<char> = Vec::new();
            line_feed.push('\n');
            assert(line_feed@ == seq!['\n']);
            match find(text, &line_feed, from) {
                Some(to) => Some(slice(text, from, to)),
                None => Some(slice(text, from, text.len())),
            }
        },
    }
}

} // verus!
