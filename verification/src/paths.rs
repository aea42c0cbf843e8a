//! File names and extensions of `/`-separated paths, as `std::path::Path` reads them on Unix.
use vstd::prelude::*;

use crate::index::{lemma_first_char, split_on};
use crate::text::{chars_of, copy_range, string_from_chars};

verus! {

/// A piece between `/`s that names a component: neither empty nor `.`.
pub open spec fn named_piece(p: Seq<char>) -> bool {
    p.len() > 0 && p != seq!['.']
}

/// The last piece of `pieces` that names a component, or `last` where none does.
pub open spec fn last_named(pieces: Seq<Seq<char>>, last: Option<Seq<char>>) -> Option<Seq<char>>
    decreases pieces.len(),
{
    if pieces.len() == 0 {
        last
    } else {
        last_named(
            pieces.drop_first(),
            if named_piece(pieces[0]) {
                Some(pieces[0])
            } else {
                last
            },
        )
    }
}

/// The file name of a path, as `Path::file_name` gives it: the last component, where that is
/// neither `..` nor missing (an empty path, `/` or `.`). Empty components and `.` components
/// after the first are not components.
pub open spec fn file_name_of(path: Seq<char>) -> Option<Seq<char>> {
    match last_named(split_on(path, '/'), None) {
        Some(n) => if n == seq!['.', '.'] {
            None
        } else {
            Some(n)
        },
        None => None,
    }
}

/// The index of the last `.` of `s`.
pub open spec fn last_dot(s: Seq<char>) -> Option<int>
    decreases s.len(),
{
    if s.len() == 0 {
        None
    } else if s.last() == '.' {
        Some(s.len() - 1)
    } else {
        last_dot(s.drop_last())
    }
}

/// The extension of a path, as `Path::extension` gives it: the part of the file name after
/// its last `.`, where the name has a `.` that is not its first character.
pub open spec fn path_extension_of(path: Seq<char>) -> Option<Seq<char>> {
    match file_name_of(path) {
        Some(n) => match last_dot(n) {
            Some(i) => if i > 0 {
                Some(n.skip(i + 1))
            } else {
                None
            },
            None => None,
        },
        None => None,
    }
}

proof fn lemma_last_dot(s: Seq<char>, i: int)
    requires
        0 <= i <= s.len(),
        forall|j: int| i <= j < s.len() ==> s[j] != '.',
        i > 0 ==> s[i - 1] == '.',
    ensures
        last_dot(s) == (if i > 0 {
            Some(i - 1)
        } else {
            None::<int>
        }),
    decreases s.len(),
{
    if s.len() > 0 && i < s.len() {
        assert(s.last() != '.');
        assert forall|j: int| i <= j < s.drop_last().len() implies s.drop_last()[j] != '.' by {
            assert(s.drop_last()[j] == s[j]);
        }
        if i > 0 {
            assert(s.drop_last()[i - 1] == s[i - 1]);
        }
        lemma_last_dot(s.drop_last(), i);
    }
}

/// The characters of an optional vector.
pub open spec fn opt_chars(o: Option<Vec<char>>) -> Option<Seq<char>> {
    match o {
        Some(v) => Some(v@),
        None => None,
    }
}

/// Whether `p` names a component.
fn is_named(p: &[char]) -> (b: bool)
    ensures
        b == named_piece(p@),
{
    if p.len() == 0 {
        return false;
    }
    if p.len() == 1 && p[0] == '.' {
        assert(p@ =~= seq!['.']);
        return false;
    }
    assert(p@ != seq!['.']) by {
        if p@.len() == 1 {
            assert(p@[0] != '.');
        }
    }
    true
}

/// The file name of `path`, as [`file_name_of`] describes it.
pub fn file_name(path: &[char]) -> (r: Option<Vec<char>>)
    ensures
        match r {
            Some(n) => file_name_of(path@) == Some(n@),
            None => file_name_of(path@) is None,
        },
{
    let n = path.len();
    let mut start: usize = 0;
    let mut last: Option<Vec<char>> = None;
    let ghost all = path@;
    assert(all.skip(0) =~= all);
    loop
        invariant
            start <= n == path@.len(),
            all == path@,
            last_named(
                split_on(all.skip(start as int), '/'),
                opt_chars(last),
            ) == last_named(split_on(all, '/'), None),
        ensures
            opt_chars(last) == last_named(split_on(all, '/'), None),
        decreases n - start,
    {
        let mut i: usize = start;
        while i < n && path[i] != '/'
            invariant
                start <= i <= n == path@.len(),
                forall|j: int| start <= j < i ==> path@[j] != '/',
            decreases n - i,
        {
            i = i + 1;
        }
        let ghost rest = all.skip(start as int);
        proof {
            assert forall|j: int| 0 <= j < i - start implies rest[j] != '/' by {
                assert(rest[j] == all[j + start]);
            }
            if i < n {
                assert(rest[i - start] == all[i as int]);
            }
            lemma_first_char(rest, '/', i - start);
        }
        let piece = copy_range(path, start, i);
        assert(piece@ == rest.take(i - start));
        let ghost prev = opt_chars(last);
        if is_named(piece.as_slice()) {
            last = Some(piece);
        }
        if i == n {
            proof {
                assert(split_on(rest, '/') == seq![rest]);
                assert(rest == piece@);
                assert(seq![rest].drop_first() =~= Seq::<Seq<char>>::empty());
                assert(last_named(seq![rest], prev) == last_named(
                    Seq::<Seq<char>>::empty(),
                    opt_chars(last),
                ));
            }
            break ;
        }
        proof {
            let after = rest.skip(i - start + 1);
            assert(after =~= all.skip(i + 1));
            assert(split_on(rest, '/') == seq![rest.take(i - start)] + split_on(after, '/'));
            assert((seq![rest.take(i - start)] + split_on(after, '/')).drop_first() =~= split_on(
                after,
                '/',
            ));
        }
        start = i + 1;
    }
    match last {
        Some(v) => {
            if v.len() == 2 && v[0] == '.' && v[1] == '.' {
                assert(v@ =~= seq!['.', '.']);
                None
            } else {
                assert(v@ != seq!['.', '.']) by {
                    if v@.len() == 2 {
                        assert(v@[0] != '.' || v@[1] != '.');
                    }
                }
                Some(v)
            }
        },
        None => None,
    }
}

/// The extension of `path`, as [`path_extension_of`] describes it.
pub fn path_extension(path: &str) -> (r: Option<String>)
    ensures
        match r {
            Some(e) => path_extension_of(path@) == Some(e@),
            None => path_extension_of(path@) is None,
        },
{
    let cs = chars_of(path);
    let name = match file_name(cs.as_slice()) {
        Some(v) => v,
        None => return None,
    };
    let mut i: usize = name.len();
    while i > 0 && name[i - 1] != '.'
        invariant
            i <= name@.len(),
            forall|j: int| i <= j < name@.len() ==> name@[j] != '.',
        decreases i,
    {
        i = i - 1;
    }
    proof {
        lemma_last_dot(name@, i as int);
    }
    if i <= 1 {
        return None;
    }
    let ext = copy_range(name.as_slice(), i, name.len());
    assert(ext@ =~= name@.skip(i as int));
    Some(string_from_chars(ext.as_slice()))
}

} // verus!
