use vstd::prelude::*;
use vstd::string::StrSliceExecFns;
use vstd::string::StringExecFns;

verus! {

/// Whether two string slices hold the same characters.
fn str_eq(a: &str, b: &str) -> (r: bool)
    ensures
        r == (a@ == b@),
{
    let n = a.unicode_len();
    if n != b.unicode_len() {
        assert(a@.len() != b@.len());
        return false;
    }
    let mut i: usize = 0;
    while i < n
        invariant
            i <= n,
            n == a@.len(),
            n == b@.len(),
            forall|j: int| 0 <= j < i ==> a@[j] == b@[j],
        decreases n - i,
    {
        if a.get_char(i) != b.get_char(i) {
            return false;
        }
        i += 1;
    }
    proof {
        assert(a@ =~= b@);
    }
    true
}

/// The theme after the switcher is pressed: `"light"` becomes `"dark"`,
/// and anything else — `"dark"` or an unrecognized stored value — becomes
/// `"light"`.
pub fn toggled_theme(current: &str) -> (r: String)
    ensures
        current@ == "light"@ ==> r@ == "dark"@,
        current@ != "light"@ ==> r@ == "light"@,
{
    if str_eq(current, "light") {
        String::from_str("dark")
    } else {
        String::from_str("light")
    }
}

/// The position of the first occurrence of `x` in the list, if any.
pub open spec fn index_of_first(all: Seq<Seq<char>>, x: Seq<char>) -> Option<int>
    decreases all.len(),
{
    if all.len() == 0 {
        None
    } else if all[0] == x {
        Some(0)
    } else {
        match index_of_first(all.drop_first(), x) {
            None => None,
            Some(i) => Some(i + 1),
        }
    }
}

/// Which of the offered locales the interface settles on for a stored
/// language code: the code itself where the list offers it, otherwise
/// English, otherwise the first locale offered — and none only when the
/// list is empty.
pub open spec fn chosen_locale(all: Seq<Seq<char>>, current: Seq<char>) -> Option<int> {
    match index_of_first(all, current) {
        Some(i) => Some(i),
        None => match index_of_first(all, "en"@) {
            Some(i) => Some(i),
            None => if all.len() > 0 {
                Some(0)
            } else {
                None
            },
        },
    }
}

/// A list with no occurrence of `x` has no first one.
proof fn lemma_index_of_first_none(all: Seq<Seq<char>>, x: Seq<char>)
    requires
        forall|j: int| 0 <= j < all.len() ==> all[j] != x,
    ensures
        index_of_first(all, x) is None,
    decreases all.len(),
{
    if all.len() > 0 {
        assert(forall|j: int|
            0 <= j < all.drop_first().len() ==> all.drop_first()[j] == all[j + 1]);
        lemma_index_of_first_none(all.drop_first(), x);
    }
}

/// An occurrence at `i` with none before it is the first.
proof fn lemma_index_of_first_at(all: Seq<Seq<char>>, x: Seq<char>, i: int)
    requires
        0 <= i < all.len(),
        all[i] == x,
        forall|j: int| 0 <= j < i ==> all[j] != x,
    ensures
        index_of_first(all, x) == Some(i),
    decreases all.len(),
{
    if i > 0 {
        assert(forall|j: int|
            0 <= j < all.drop_first().len() ==> all.drop_first()[j] == all[j + 1]);
        lemma_index_of_first_at(all.drop_first(), x, i - 1);
    }
}

/// The position of the first list entry equal to `x`.
fn find_first(all: &Vec<String>, x: &str) -> (r: Option<usize>)
    ensures
        (match r {
            Some(i) => index_of_first(all.deep_view(), x@) == Some(i as int),
            None => index_of_first(all.deep_view(), x@) is None,
        }),
{
    let n = all.len();
    let mut i: usize = 0;
    while i < n
        invariant
            i <= n,
            n == all@.len(),
            forall|j: int| 0 <= j < i ==> all.deep_view()[j] != x@,
        decreases n - i,
    {
        if str_eq(all[i].as_str(), x) {
            proof {
                assert(all.deep_view()[i as int] == all@[i as int]@);
                lemma_index_of_first_at(all.deep_view(), x@, i as int);
            }
            return Some(i);
        }
        proof {
            assert(all.deep_view()[i as int] == all@[i as int]@);
        }
        i += 1;
    }
    proof {
        lemma_index_of_first_none(all.deep_view(), x@);
    }
    None
}

/// The locale the interface switches to for a stored language code, as
/// an index into the list of offered locales: the code itself where
/// offered, otherwise `"en"`, otherwise the first offered locale; `None`
/// only when no locale is offered at all.
pub fn select_locale(all: &Vec<String>, current: &str) -> (r: Option<usize>)
    ensures
        (match r {
            Some(i) => chosen_locale(all.deep_view(), current@) == Some(i as int),
            None => chosen_locale(all.deep_view(), current@) is None,
        }),
{
    match find_first(all, current) {
        Some(i) => Some(i),
        None => {
            match find_first(all, "en") {
                Some(i) => Some(i),
                None => {
                    if all.len() > 0 {
                        Some(0)
                    } else {
                        None
                    }
                },
            }
        },
    }
}

} // verus!
