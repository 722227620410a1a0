//! Names the code generator derives from schema file and package names.

use vstd::prelude::*;
use vstd::string::{StrSliceExecFns, StringExecFns};

verus! {

/// Where the last `c` stands in `s`, when there is one.
pub open spec fn last_index_of(s: Seq<char>, c: char) -> Option<int>
    decreases s.len(),
{
    if s.len() == 0 {
        None
    } else if s.last() == c {
        Some(s.len() - 1)
    } else {
        last_index_of(s.drop_last(), c)
    }
}

/// Number of times `c` occurs in `s`.
pub open spec fn count_char(s: Seq<char>, c: char) -> nat
    decreases s.len(),
{
    if s.len() == 0 {
        0
    } else {
        count_char(s.drop_last(), c) + if s.last() == c {
            1nat
        } else {
            0nat
        }
    }
}

/// A file name without its last extension: everything before the last
/// `.`, or the whole name when it has none.
pub open spec fn file_stem(name: Seq<char>) -> Seq<char> {
    match last_index_of(name, '.') {
        Some(i) => name.subrange(0, i),
        None => name,
    }
}

/// The last `c` of `s` is a `c` inside `s`; without one, `s` has no `c`.
pub proof fn lemma_last_index_bounds(s: Seq<char>, c: char)
    ensures
        match last_index_of(s, c) {
            Some(i) => 0 <= i < s.len() && s[i] == c,
            None => forall|j: int| 0 <= j < s.len() ==> s[j] != c,
        },
    decreases s.len(),
{
    if s.len() > 0 && s.last() != c {
        lemma_last_index_bounds(s.drop_last(), c);
        assert forall|j: int| 0 <= j < s.len() - 1 implies s[j] == s.drop_last()[j] by {}
    }
}

/// The last `c` of `s` stands at `k` when `s[k]` is `c` and no later
/// character is; there is none when no character is.
proof fn lemma_last_index_of(s: Seq<char>, c: char, k: int)
    requires
        -1 <= k < s.len(),
        k >= 0 ==> s[k] == c,
        forall|j: int| k < j < s.len() ==> s[j] != c,
    ensures
        last_index_of(s, c) == if k >= 0 {
            Some(k)
        } else {
            None::<int>
        },
    decreases s.len(),
{
    if s.len() > 0 && s.len() - 1 != k {
        assert(s.last() != c);
        lemma_last_index_of(s.drop_last(), c, k);
    }
}

/// Where the last `c` of `s` stands.
pub(crate) fn find_last(s: &str, c: char) -> (r: Option<usize>)
    ensures
        match r {
            Some(i) => last_index_of(s@, c) == Some(i as int) && i < s@.len(),
            None => last_index_of(s@, c) is None,
        },
{
    let n: usize = s.unicode_len();
    let mut i: usize = n;
    while i > 0
        invariant
            i <= n,
            n == s@.len(),
            forall|j: int| i <= j < n ==> s@[j] != c,
        decreases i,
    {
        if s.get_char(i - 1) == c {
            proof {
                lemma_last_index_of(s@, c, (i - 1) as int);
            }
            return Some(i - 1);
        }
        i -= 1;
    }
    proof {
        lemma_last_index_of(s@, c, -1);
    }
    None
}

/// The file name of the code generated for a schema file: its last
/// extension replaced by `.pc.rs`.
pub fn convert_filename(name: &str) -> (r: String)
    ensures
        r@ == file_stem(name@) + ".pc.rs"@,
{
    let stem: &str = match find_last(name, '.') {
        Some(pos) => name.substring_char(0, pos),
        None => name,
    };
    String::from_str(stem).concat(".pc.rs")
}

/// The file name of the extra code generated for a schema file: its last
/// extension replaced by `.pc-ex.rs`.
pub fn convert_ex_filename(name: &str) -> (r: String)
    ensures
        r@ == file_stem(name@) + ".pc-ex.rs"@,
{
    let stem: &str = match find_last(name, '.') {
        Some(pos) => name.substring_char(0, pos),
        None => name,
    };
    String::from_str(stem).concat(".pc-ex.rs")
}

/// The fully qualified prefix of a package's names: a `.` before the
/// package, or nothing for the empty package.
pub fn package_prefix(package: &str) -> (r: String)
    ensures
        package@.len() == 0 ==> r@ == Seq::<char>::empty(),
        package@.len() != 0 ==> r@ == "."@ + package@,
{
    if package.is_empty() {
        String::new()
    } else {
        String::from_str(".").concat(package)
    }
}

/// Number of dot-separated parts of a package name; none for the empty
/// package.
pub fn package_depth(package: &str) -> (r: usize)
    requires
        package@.len() < usize::MAX,
    ensures
        package@.len() == 0 ==> r == 0,
        package@.len() != 0 ==> r == count_char(package@, '.') + 1,
{
    if package.is_empty() {
        return 0;
    }
    let n: usize = package.unicode_len();
    let mut count: usize = 1;
    let mut i: usize = 0;
    while i < n
        invariant
            i <= n,
            n == package@.len(),
            n < usize::MAX,
            count == count_char(package@.subrange(0, i as int), '.') + 1,
            count <= i + 1,
        decreases n - i,
    {
        let ch: char = package.get_char(i);
        proof {
            assert(package@.subrange(0, (i + 1) as int).drop_last() =~= package@.subrange(
                0,
                i as int,
            ));
        }
        if ch == '.' {
            count += 1;
        }
        i += 1;
    }
    proof {
        assert(package@.subrange(0, n as int) =~= package@);
    }
    count
}

} // verus!
