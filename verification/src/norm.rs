use vstd::prelude::*;

use vstd::string::StrSliceExecFns;
use vstd::string::StringExecFns;

verus! {

/// The marker segment that asset-path normalization rewrites around.
pub open spec fn content_marker() -> Seq<char> {
    seq!['C', 'o', 'n', 't', 'e', 'n', 't', '/']
}

/// The root prefix that keeps its own tree instead of the `Game` root.
pub open spec fn engine_root() -> Seq<char> {
    seq!['E', 'n', 'g', 'i', 'n', 'e']
}

/// The marker occurs in `s` at position `i`.
pub open spec fn marker_at(s: Seq<char>, i: int) -> bool {
    0 <= i && i + 8 <= s.len() && s.subrange(i, i + 8) == content_marker()
}

/// The marker occurs somewhere before position `k`.
pub open spec fn marker_before(s: Seq<char>, k: int) -> bool {
    exists|i: int| i < k && #[trigger] marker_at(s, i)
}

pub open spec fn starts_with_engine(s: Seq<char>) -> bool {
    s.len() >= 6 && s.subrange(0, 6) == engine_root()
}

/// The normalized catalog key for a raw asset path: everything through the
/// first `Content/` marker is replaced by the `Game` root, unless the path
/// is rooted under `Engine`, where only the marker itself is removed; the
/// result is absolute. A path without the marker is merely made absolute.
pub open spec fn normalize_spec(s: Seq<char>) -> Seq<char> {
    if exists|i: int| #[trigger] marker_at(s, i) {
        let i = choose|i: int| marker_at(s, i) && !marker_before(s, i);
        if starts_with_engine(s) {
            seq!['/'] + s.subrange(0, i) + s.subrange(i + 8, s.len() as int)
        } else {
            seq!['/', 'G', 'a', 'm', 'e', '/'] + s.subrange(i + 8, s.len() as int)
        }
    } else {
        seq!['/'] + s
    }
}

/// The first marker position is unique, so `normalize_spec`'s choice of it
/// picks exactly the position an ascending search finds.
proof fn lemma_first_marker_unique(s: Seq<char>, i: int, j: int)
    requires
        marker_at(s, i) && !marker_before(s, i),
        marker_at(s, j) && !marker_before(s, j),
    ensures
        i == j,
{
    if i < j {
        assert(marker_before(s, j));
    }
    if j < i {
        assert(marker_before(s, i));
    }
}

/// Whether the marker stands at position `i` of `s`.
fn marker_check(s: &str, i: usize) -> (r: bool)
    requires
        i + 8 <= s@.len(),
        i + 8 <= usize::MAX,
    ensures
        r == marker_at(s@, i as int),
{
    let r = s.get_char(i) == 'C' && s.get_char(i + 1) == 'o' && s.get_char(i + 2) == 'n'
        && s.get_char(i + 3) == 't' && s.get_char(i + 4) == 'e' && s.get_char(i + 5) == 'n'
        && s.get_char(i + 6) == 't' && s.get_char(i + 7) == '/';
    proof {
        if r {
            assert(s@.subrange(i as int, i as int + 8) =~= content_marker());
        } else {
            if s@.subrange(i as int, i as int + 8) == content_marker() {
                assert(s@[i as int] == content_marker()[0]);
                assert(s@[i + 1] == content_marker()[1]);
                assert(s@[i + 2] == content_marker()[2]);
                assert(s@[i + 3] == content_marker()[3]);
                assert(s@[i + 4] == content_marker()[4]);
                assert(s@[i + 5] == content_marker()[5]);
                assert(s@[i + 6] == content_marker()[6]);
                assert(s@[i + 7] == content_marker()[7]);
            }
        }
    }
    r
}

/// The position of the first marker in `s`, if any.
fn find_marker(s: &str, n: usize) -> (r: Option<usize>)
    requires
        n == s@.len(),
    ensures
        match r {
            Some(k) => marker_at(s@, k as int) && !marker_before(s@, k as int),
            None => !(exists|i: int| #[trigger] marker_at(s@, i)),
        },
{
    let mut found: Option<usize> = None;
    if n >= 8 {
        let mut i: usize = 0;
        while i <= n - 8
            invariant_except_break
                found is None,
                forall|j: int| j < i ==> !#[trigger] marker_at(s@, j),
            invariant
                n == s@.len(),
                8 <= n,
                i <= n - 8 + 1,
            ensures
                match found {
                    Some(k) => marker_at(s@, k as int) && !marker_before(s@, k as int),
                    None => forall|j: int| !#[trigger] marker_at(s@, j),
                },
            decreases n - i,
        {
            if marker_check(s, i) {
                proof {
                    assert(!marker_before(s@, i as int));
                }
                found = Some(i);
                break ;
            }
            i = i + 1;
        }
    }
    proof {
        if found is None {
            assert(forall|j: int| marker_at(s@, j) ==> j + 8 <= s@.len());
        }
    }
    found
}

/// Whether the path is rooted under `Engine`.
fn engine_check(s: &str, n: usize) -> (r: bool)
    requires
        n == s@.len(),
    ensures
        r == starts_with_engine(s@),
{
    let r = n >= 6 && s.get_char(0) == 'E' && s.get_char(1) == 'n' && s.get_char(2) == 'g'
        && s.get_char(3) == 'i' && s.get_char(4) == 'n' && s.get_char(5) == 'e';
    proof {
        if r {
            assert(s@.subrange(0, 6) =~= engine_root());
        } else {
            if starts_with_engine(s@) {
                assert(s@[0] == engine_root()[0]);
                assert(s@[1] == engine_root()[1]);
                assert(s@[2] == engine_root()[2]);
                assert(s@[3] == engine_root()[3]);
                assert(s@[4] == engine_root()[4]);
                assert(s@[5] == engine_root()[5]);
            }
        }
    }
    r
}

/// Applies the asset-path normalization rule to a raw stored path.
pub fn normalize_name(s: &str) -> (r: String)
    ensures
        r@ == normalize_spec(s@),
{
    let n = s.unicode_len();
    let found = find_marker(s, n);
    match found {
        None => {
            proof {
                reveal_strlit("/");
            }
            let mut r = String::from_str("/");
            r.append(s);
            proof {
                assert(r@ =~= seq!['/'] + s@);
            }
            r
        },
        Some(i) => {
            let ghost c = choose|k: int| marker_at(s@, k) && !marker_before(s@, k);
            proof {
                lemma_first_marker_unique(s@, i as int, c);
            }
            let eng = engine_check(s, n);
            if eng {
                proof {
                    reveal_strlit("/");
                }
                let mut r = String::from_str("/");
                r.append(s.substring_char(0, i));
                r.append(s.substring_char(i + 8, n));
                proof {
                    assert(r@ =~= seq!['/'] + s@.subrange(0, i as int) + s@.subrange(
                        i + 8,
                        s@.len() as int,
                    ));
                }
                r
            } else {
                proof {
                    reveal_strlit("/Game/");
                }
                let mut r = String::from_str("/Game/");
                r.append(s.substring_char(i + 8, n));
                proof {
                    assert("/Game/"@ =~= seq!['/', 'G', 'a', 'm', 'e', '/']);
                    assert(r@ =~= seq!['/', 'G', 'a', 'm', 'e', '/'] + s@.subrange(
                        i + 8,
                        s@.len() as int,
                    ));
                }
                r
            }
        },
    }
}

} // verus!
