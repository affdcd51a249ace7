use vstd::prelude::*;
use vstd::string::StrSliceExecFns;

verus! {

/// The code point a character counts as when comparing up to case:
/// ASCII capital letters fold onto their small counterparts, every
/// other character stands for itself.
pub open spec fn fold_code(c: char) -> int {
    if 65 <= c as u32 && c as u32 <= 90 {
        c as u32 + 32
    } else {
        c as u32 as int
    }
}

/// Two character sequences are equal up to ASCII case.
pub open spec fn eq_fold(a: Seq<char>, b: Seq<char>) -> bool {
    a.len() == b.len() && (forall|i: int| 0 <= i < a.len() ==> fold_code(a[i]) == fold_code(b[i]))
}

/// The extension of a file name: the characters after the last `.`,
/// without the dot itself. A name without any dot has none.
pub open spec fn ext_of(name: Seq<char>) -> Option<Seq<char>>
    decreases name.len(),
{
    if name.len() == 0 {
        None
    } else if name.last() == '.' {
        Some(Seq::empty())
    } else {
        match ext_of(name.drop_last()) {
            None => None,
            Some(e) => Some(e.push(name.last())),
        }
    }
}

/// A file name matches a filter when it has an extension and that
/// extension equals the filter up to ASCII case.
pub open spec fn ext_matches(name: Seq<char>, filter: Seq<char>) -> bool {
    match ext_of(name) {
        None => false,
        Some(e) => eq_fold(e, filter),
    }
}

/// A name without a dot has no extension.
proof fn lemma_ext_of_no_dot(name: Seq<char>)
    requires
        forall|j: int| 0 <= j < name.len() ==> name[j] != '.',
    ensures
        ext_of(name) is None,
    decreases name.len(),
{
    if name.len() > 0 {
        assert(forall|j: int| 0 <= j < name.drop_last().len() ==> name.drop_last()[j] == name[j]);
        lemma_ext_of_no_dot(name.drop_last());
    }
}

/// With the last dot at position `k`, the extension is everything after it.
proof fn lemma_ext_of_dot(name: Seq<char>, k: int)
    requires
        0 <= k < name.len(),
        name[k] == '.',
        forall|j: int| k < j < name.len() ==> name[j] != '.',
    ensures
        ext_of(name) == Some(name.subrange(k + 1, name.len() as int)),
    decreases name.len(),
{
    if k == name.len() - 1 {
        assert(name.last() == '.');
        assert(name.subrange(k + 1, name.len() as int) =~= Seq::<char>::empty());
    } else {
        assert(name.last() != '.');
        let prefix = name.drop_last();
        assert(forall|j: int| 0 <= j < prefix.len() ==> prefix[j] == name[j]);
        lemma_ext_of_dot(prefix, k);
        assert(prefix.subrange(k + 1, prefix.len() as int).push(name.last()) =~= name.subrange(
            k + 1,
            name.len() as int,
        ));
    }
}

/// Only `.` itself folds onto the code of `.`.
proof fn lemma_fold_code_dot(c: char)
    ensures
        (fold_code(c) == fold_code('.')) <==> (c == '.'),
{
}

/// Every name with a dot has a last one.
proof fn lemma_last_dot_exists(s: Seq<char>)
    requires
        exists|j: int| 0 <= j < s.len() && s[j] == '.',
    ensures
        exists|k: int|
            0 <= k < s.len() && s[k] == '.' && (forall|j: int| k < j < s.len() ==> s[j] != '.'),
    decreases s.len(),
{
    if s.last() == '.' {
        let k = s.len() - 1;
        assert(0 <= k < s.len() && s[k] == '.' && (forall|j: int| k < j < s.len() ==> s[j] != '.'));
    } else {
        let j0 = choose|j: int| 0 <= j < s.len() && s[j] == '.';
        assert(forall|j: int| 0 <= j < s.drop_last().len() ==> s.drop_last()[j] == s[j]);
        assert(0 <= j0 < s.drop_last().len() && s.drop_last()[j0] == '.');
        lemma_last_dot_exists(s.drop_last());
        let k = choose|k: int|
            0 <= k < s.drop_last().len() && s.drop_last()[k] == '.' && (forall|j: int|
                k < j < s.drop_last().len() ==> s.drop_last()[j] != '.');
        assert(0 <= k < s.len() && s[k] == '.' && (forall|j: int| k < j < s.len() ==> s[j] != '.'));
    }
}

/// Matching is case-insensitive: a name and a filter may each be replaced
/// by any spelling that agrees with them up to ASCII case without changing
/// whether they match.
pub proof fn lemma_extension_match_case_insensitive(
    a: Seq<char>,
    b: Seq<char>,
    f1: Seq<char>,
    f2: Seq<char>,
)
    requires
        eq_fold(a, b),
        eq_fold(f1, f2),
    ensures
        ext_matches(a, f1) == ext_matches(b, f2),
{
    assert forall|j: int| 0 <= j < a.len() implies (a[j] == '.') == (b[j] == '.') by {
        lemma_fold_code_dot(a[j]);
        lemma_fold_code_dot(b[j]);
    }
    if exists|j: int| 0 <= j < a.len() && a[j] == '.' {
        lemma_last_dot_exists(a);
        let k = choose|k: int|
            0 <= k < a.len() && a[k] == '.' && (forall|j: int| k < j < a.len() ==> a[j] != '.');
        lemma_ext_of_dot(a, k);
        lemma_ext_of_dot(b, k);
        let ea = a.subrange(k + 1, a.len() as int);
        let eb = b.subrange(k + 1, b.len() as int);
        assert(forall|i: int| 0 <= i < ea.len() ==> fold_code(ea[i]) == fold_code(eb[i]));
        assert(eq_fold(ea, f1) == eq_fold(eb, f2));
    } else {
        lemma_ext_of_no_dot(a);
        lemma_ext_of_no_dot(b);
    }
}

/// The folded code point, computed.
fn fold_code_x(c: char) -> (r: u32)
    ensures
        r == fold_code(c),
{
    let u = c as u32;
    if 65 <= u && u <= 90 {
        u + 32
    } else {
        u
    }
}

/// Whether `name` carries an extension equal to `filter` up to ASCII case.
pub fn extension_matches(name: &str, filter: &str) -> (r: bool)
    ensures
        r == ext_matches(name@, filter@),
{
    let n = name.unicode_len();
    let mut idx: usize = 0;
    let mut dot: Option<usize> = None;
    while idx < n
        invariant
            idx <= n,
            n == name@.len(),
            match dot {
                Some(d) => d < idx && name@[d as int] == '.' && (forall|j: int|
                    d < j < idx ==> name@[j] != '.'),
                None => forall|j: int| 0 <= j < idx ==> name@[j] != '.',
            },
        decreases n - idx,
    {
        if name.get_char(idx) == '.' {
            dot = Some(idx);
        }
        idx += 1;
    }
    match dot {
        None => {
            proof {
                lemma_ext_of_no_dot(name@);
            }
            false
        },
        Some(d) => {
            proof {
                lemma_ext_of_dot(name@, d as int);
            }
            let start = d + 1;
            let flen = filter.unicode_len();
            if n - start != flen {
                assert(name@.subrange(start as int, n as int).len() != filter@.len());
                return false;
            }
            let mut j: usize = 0;
            while j < flen
                invariant
                    j <= flen,
                    flen == filter@.len(),
                    n == name@.len(),
                    start <= n,
                    n - start == flen,
                    ext_of(name@) == Some(name@.subrange(start as int, n as int)),
                    forall|k: int|
                        0 <= k < j ==> fold_code(name@[start + k]) == fold_code(filter@[k]),
                decreases flen - j,
            {
                let ca = fold_code_x(name.get_char(start + j));
                let cb = fold_code_x(filter.get_char(j));
                if ca != cb {
                    assert(fold_code(name@.subrange(start as int, n as int)[j as int])
                        != fold_code(filter@[j as int]));
                    return false;
                }
                j += 1;
            }
            assert forall|k: int|
                0 <= k < flen implies fold_code(
                name@.subrange(start as int, n as int)[k],
            ) == fold_code(filter@[k]) by {
                assert(name@.subrange(start as int, n as int)[k] == name@[start + k]);
            }
            true
        },
    }
}

} // verus!
