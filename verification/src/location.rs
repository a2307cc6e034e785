//! Where a description file lies within the driver tree.
//!
//! Paths are texts in which `/` and `\` separate the names; nothing here
//! asks the file system.
use crate::text::{slice, stands_at};
use vstd::prelude::*;

verus! {

/// A character that separates the names of a path.
pub open spec fn is_separator(c: char) -> bool {
    c == '/' || c == '\\'
}

/// How many separators `p` begins with.
pub open spec fn leading_separators(p: Seq<char>) -> nat
    decreases p.len(),
{
    if p.len() > 0 && is_separator(p[0]) {
        1 + leading_separators(p.skip(1))
    } else {
        0
    }
}

/// How many separators `p` ends with.
pub open spec fn trailing_separators(p: Seq<char>) -> nat
    decreases p.len(),
{
    if p.len() > 0 && is_separator(p.last()) {
        1 + trailing_separators(p.drop_last())
    } else {
        0
    }
}

/// The length of the last name of `p`: how many characters follow its last
/// separator.
pub open spec fn name_len(p: Seq<char>) -> nat
    decreases p.len(),
{
    if p.len() > 0 && !is_separator(p.last()) {
        1 + name_len(p.drop_last())
    } else {
        0
    }
}

/// The last name of `p`.
pub open spec fn file_name(p: Seq<char>) -> Seq<char> {
    p.skip(p.len() - name_len(p))
}

/// `p` without its last name and without the separators before it.
pub open spec fn directory(p: Seq<char>) -> Seq<char> {
    let upto = p.take(p.len() - name_len(p));
    upto.take(upto.len() - trailing_separators(upto))
}

/// `file` begins with `base`, and `base` ends where a name of `file` ends.
pub open spec fn lies_under(base: Seq<char>, file: Seq<char>) -> bool {
    base.is_prefix_of(file) && (base.len() == 0 || is_separator(base.last()) || file.len()
        == base.len() || is_separator(file[base.len() as int]))
}

/// The directory of `file` relative to `base`, and the file's name. `None`
/// where `file` does not lie under `base`, and where it names no file there.
pub open spec fn location(base: Seq<char>, file: Seq<char>) -> Option<(Seq<char>, Seq<char>)> {
    if lies_under(base, file) {
        let rest = file.skip(base.len() as int);
        let inner = rest.skip(leading_separators(rest) as int);
        if name_len(inner) == 0 {
            None
        } else {
            Some((directory(inner), file_name(inner)))
        }
    } else {
        None
    }
}

proof fn lemma_counts_bounded(p: Seq<char>)
    ensures
        leading_separators(p) <= p.len(),
        trailing_separators(p) <= p.len(),
        name_len(p) <= p.len(),
    decreases p.len(),
{
    if p.len() > 0 {
        lemma_counts_bounded(p.skip(1));
        lemma_counts_bounded(p.drop_last());
    }
}

fn is_sep(c: char) -> (r: bool)
    ensures
        r == is_separator(c),
{
    c == '/' || c == '\\'
}

/// Finds the directory of `file` relative to `base`, and the file's name.
pub fn locate(base: &Vec<char>, file: &Vec<char>) -> (r: Option<(Vec<char>, Vec<char>)>)
    ensures
        match r {
            Some((dir, name)) => location(base@, file@) == Some((dir@, name@)),
            None => location(base@, file@).is_none(),
        },
{
    if !stands_at(file, 0, base) {
        return None;
    }
    let at: usize = base.len();
    if !(at == 0 || is_sep(base[at - 1]) || file.len() == at || is_sep(file[at])) {
        return None;
    }
    let ghost rest = file@.skip(at as int);
    let end: usize = file.len();
    let mut start: usize = at;
    proof {
        lemma_counts_bounded(rest);
    }
    while start < end && is_sep(file[start])
        invariant
            at <= start <= end == file.len(),
            rest == file@.skip(at as int),
            leading_separators(rest) == (start - at) + leading_separators(file@.skip(start as int)),
        decreases end - start,
    {
        proof {
            assert(file@.skip(start as int).skip(1) =~= file@.skip(start + 1));
        }
        start += 1;
    }
    let ghost inner = file@.skip(start as int);
    proof {
        assert(rest.skip(leading_separators(rest) as int) =~= inner);
        assert(inner =~= file@.subrange(start as int, end as int));
    }
    let mut name_at: usize = end;
    while name_at > start && !is_sep(file[name_at - 1])
        invariant
            start <= name_at <= end == file.len(),
            name_len(inner) == (end - name_at) + name_len(
                file@.subrange(start as int, name_at as int),
            ),
        decreases name_at,
    {
        proof {
            assert(file@.subrange(start as int, name_at as int).drop_last() =~= file@.subrange(
                start as int,
                name_at - 1,
            ));
        }
        name_at -= 1;
    }
    if name_at == end {
        return None;
    }
    let ghost upto = file@.subrange(start as int, name_at as int);
    proof {
        assert(inner.take(inner.len() - name_len(inner)) =~= upto);
        assert(inner.skip(inner.len() - name_len(inner)) =~= file@.subrange(
            name_at as int,
            end as int,
        ));
        lemma_counts_bounded(upto);
    }
    let mut dir_end: usize = name_at;
    while dir_end > start && is_sep(file[dir_end - 1])
        invariant
            start <= dir_end <= name_at <= file.len(),
            trailing_separators(upto) == (name_at - dir_end) + trailing_separators(
                file@.subrange(start as int, dir_end as int),
            ),
        decreases dir_end,
    {
        proof {
            assert(file@.subrange(start as int, dir_end as int).drop_last() =~= file@.subrange(
                start as int,
                dir_end - 1,
            ));
        }
        dir_end -= 1;
    }
    proof {
        assert(upto.take(upto.len() - trailing_separators(upto)) =~= file@.subrange(
            start as int,
            dir_end as int,
        ));
    }
    Some((slice(file, start, dir_end), slice(file, name_at, end)))
}

} // verus!
