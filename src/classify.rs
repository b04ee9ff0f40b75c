//! Splits one entry line into its depth and its label.
use vstd::prelude::*;

verus! {

/// True when `t` is one of the four indentation tokens:
/// `+---`, `\---`, `|   ` or four spaces.
pub open spec fn is_token(t: Seq<char>) -> bool {
    ||| t == seq!['+', '-', '-', '-']
    ||| t == seq!['\\', '-', '-', '-']
    ||| t == seq!['|', ' ', ' ', ' ']
    ||| t == seq![' ', ' ', ' ', ' ']
}

/// Number of indentation tokens at the start of `line`.
pub open spec fn depth_of(line: Seq<char>) -> nat
    decreases line.len(),
{
    if line.len() >= 4 && is_token(line.subrange(0, 4)) {
        1 + depth_of(line.subrange(4, line.len() as int))
    } else {
        0
    }
}

/// What follows the leading indentation tokens of `line`.
pub open spec fn label_of(line: Seq<char>) -> Seq<char> {
    line.subrange(4 * depth_of(line) as int, line.len() as int)
}

proof fn lemma_depth_bound(line: Seq<char>)
    ensures
        4 * depth_of(line) <= line.len(),
    decreases line.len(),
{
    if line.len() >= 4 && is_token(line.subrange(0, 4)) {
        lemma_depth_bound(line.subrange(4, line.len() as int));
    }
}

/// Depth counted from token position `k` on equals the depth of the rest.
proof fn lemma_depth_from(line: Seq<char>, k: int)
    requires
        0 <= k,
        4 * k <= line.len(),
        forall|j: int| 0 <= j < k ==> is_token(#[trigger] line.subrange(4 * j, 4 * j + 4)),
    ensures
        depth_of(line) == k + depth_of(line.subrange(4 * k, line.len() as int)),
    decreases k,
{
    if k > 0 {
        let rest = line.subrange(4, line.len() as int);
        let j0: int = 0;
        assert(is_token(line.subrange(4 * j0, 4 * j0 + 4)));
        assert(is_token(line.subrange(0, 4)));
        assert forall|j: int| 0 <= j < k - 1 implies is_token(
            #[trigger] rest.subrange(4 * j, 4 * j + 4),
        ) by {
            assert(rest.subrange(4 * j, 4 * j + 4) == line.subrange(4 * (j + 1), 4 * (j + 1) + 4));
        }
        lemma_depth_from(rest, k - 1);
        assert(rest.subrange(4 * (k - 1), rest.len() as int) == line.subrange(
            4 * k,
            line.len() as int,
        ));
    } else {
        assert(line.subrange(0, line.len() as int) =~= line);
    }
}

/// The characters of `s`, in order.
pub fn chars_of(s: &str) -> (r: Vec<char>)
    ensures
        r@ == s@,
{
    let mut v: Vec<char> = Vec::new();
    for c in it: s.chars()
        invariant
            v@ == it.history(),
    {
        v.push(c);
    }
    v
}

/// Whether the four characters of `v` from `at` on form an indentation token.
fn token_at(v: &Vec<char>, at: usize) -> (r: bool)
    requires
        at + 4 <= v@.len(),
    ensures
        r == is_token(v@.subrange(at as int, at + 4)),
{
    let n = v.len();
    assert(at + 4 <= n);
    let (a, b, c, d) = (v[at], v[at + 1], v[at + 2], v[at + 3]);
    let r = (a == '+' && b == '-' && c == '-' && d == '-') || (a == '\\' && b == '-' && c == '-'
        && d == '-') || (a == '|' && b == ' ' && c == ' ' && d == ' ') || (a == ' ' && b == ' '
        && c == ' ' && d == ' ');
    let ghost t = v@.subrange(at as int, at + 4);
    assert(t[0] == a && t[1] == b && t[2] == c && t[3] == d);
    if r {
        assert(is_token(t)) by {
            if a == '+' {
                assert(t =~= seq!['+', '-', '-', '-']);
            } else if a == '\\' {
                assert(t =~= seq!['\\', '-', '-', '-']);
            } else if a == '|' {
                assert(t =~= seq!['|', ' ', ' ', ' ']);
            } else {
                assert(t =~= seq![' ', ' ', ' ', ' ']);
            }
        }
    }
    r
}

/// Consumes the leading indentation tokens of `line`: returns their count
/// and the rest of the line. A label whose own text starts like a token is
/// consumed as indentation too; the format cannot tell them apart.
pub fn classify_line(line: &str) -> (r: (usize, String))
    ensures
        r.0 == depth_of(line@),
        r.1@ == label_of(line@),
{
    let v = chars_of(line);
    let n = v.len();
    let mut k: usize = 0;
    while n - 4 * k >= 4 && token_at(&v, 4 * k)
        invariant
            v@ == line@,
            n == v@.len(),
            4 * k <= n,
            forall|j: int| 0 <= j < k ==> is_token(#[trigger] v@.subrange(4 * j, 4 * j + 4)),
        decreases n - 4 * k,
    {
        k = k + 1;
    }
    proof {
        lemma_depth_from(line@, k as int);
        let rest = line@.subrange(4 * k, line@.len() as int);
        if rest.len() >= 4 {
            assert(rest.subrange(0, 4) == v@.subrange(4 * k, 4 * k + 4));
        }
        assert(depth_of(rest) == 0);
    }
    let label = String::from_str(line.substring_char(4 * k, n));
    (k, label)
}

} // verus!
