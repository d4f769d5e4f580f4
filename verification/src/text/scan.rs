//! Runs of items, whitespace, and the scanners that find where a run ends.

use vstd::prelude::*;

verus! {

/// Number of leading items of `s` that satisfy `p`: the index of the first
/// item that does not, or the length of `s` when all do.
#[verifier::opaque]
pub open spec fn run_len<T>(s: Seq<T>, p: spec_fn(T) -> bool) -> nat
    decreases s.len(),
{
    if s.len() > 0 && p(s[0]) {
        1 + run_len(s.drop_first(), p)
    } else {
        0
    }
}

/// The predicate "differs from `x`".
pub open spec fn other_than<T>(x: T) -> spec_fn(T) -> bool {
    |y: T| y != x
}

/// Index of the first `x` in `s`, or the length of `s` if it holds none.
pub open spec fn index_of<T>(s: Seq<T>, x: T) -> nat {
    run_len(s, other_than(x))
}

/// `run_len` is characterised by what it skips and where it stops.
pub proof fn lemma_run_len_is<T>(s: Seq<T>, p: spec_fn(T) -> bool, n: int)
    requires
        0 <= n <= s.len(),
        forall|j: int| 0 <= j < n ==> p(#[trigger] s[j]),
        n < s.len() ==> !p(s[n]),
    ensures
        run_len(s, p) == n,
    decreases n,
{
    reveal(run_len);
    if n > 0 {
        let t = s.drop_first();
        assert forall|j: int| 0 <= j < n - 1 implies p(#[trigger] t[j]) by {
            assert(t[j] == s[j + 1]);
        }
        lemma_run_len_is(t, p, n - 1);
    }
}

/// Every item before the end of the run satisfies `p`, and the item at the
/// end, if there is one, does not.
pub proof fn lemma_run_len_props<T>(s: Seq<T>, p: spec_fn(T) -> bool)
    ensures
        run_len(s, p) <= s.len(),
        forall|j: int| 0 <= j < run_len(s, p) ==> p(#[trigger] s[j]),
        run_len(s, p) < s.len() ==> !p(s[run_len(s, p) as int]),
    decreases s.len(),
{
    reveal(run_len);
    if s.len() > 0 && p(s[0]) {
        let t = s.drop_first();
        lemma_run_len_props(t, p);
        assert forall|j: int| 0 <= j < run_len(s, p) implies p(#[trigger] s[j]) by {
            if j > 0 {
                assert(s[j] == t[j - 1]);
            }
        }
    }
}

/// Whether no item of `s` equals `x`.
pub open spec fn free_of<T>(s: Seq<T>, x: T) -> bool {
    forall|i: int| 0 <= i < s.len() ==> #[trigger] s[i] != x
}

/// A concatenation is free of `x` exactly when both parts are.
pub proof fn lemma_free_of_concat<T>(a: Seq<T>, b: Seq<T>, x: T)
    ensures
        free_of(a + b, x) <==> free_of(a, x) && free_of(b, x),
{
    if free_of(a + b, x) {
        assert forall|i: int| 0 <= i < a.len() implies #[trigger] a[i] != x by {
            assert((a + b)[i] == a[i]);
        }
        assert forall|i: int| 0 <= i < b.len() implies #[trigger] b[i] != x by {
            assert((a + b)[a.len() + i] == b[i]);
        }
    }
    if free_of(a, x) && free_of(b, x) {
        assert forall|i: int| 0 <= i < (a + b).len() implies #[trigger] (a + b)[i] != x by {
            if i < a.len() {
                assert((a + b)[i] == a[i]);
            } else {
                assert((a + b)[i] == b[i - a.len()]);
            }
        }
    }
}

/// Where `a` is free of `x`, the first `x` of `a`, `x`, `b` stands right
/// behind `a`.
pub proof fn lemma_index_of<T>(a: Seq<T>, x: T, b: Seq<T>)
    requires
        free_of(a, x),
    ensures
        index_of(a + seq![x] + b, x) == a.len(),
{
    let s = a + seq![x] + b;
    assert forall|j: int| 0 <= j < a.len() implies other_than(x)(#[trigger] s[j]) by {
        assert(s[j] == a[j]);
    }
    assert(s[a.len() as int] == x);
    lemma_run_len_is(s, other_than(x), a.len() as int);
}

/// Where `a` holds `x`, the first `x` of `a` followed by `b` is the first
/// `x` of `a`.
pub proof fn lemma_index_of_prefix<T>(a: Seq<T>, b: Seq<T>, x: T)
    requires
        index_of(a, x) < a.len(),
    ensures
        index_of(a + b, x) == index_of(a, x),
{
    lemma_run_len_props(a, other_than(x));
    let n = index_of(a, x) as int;
    assert forall|j: int| 0 <= j < n implies other_than(x)(#[trigger] (a + b)[j]) by {
        assert((a + b)[j] == a[j]);
    }
    assert((a + b)[n] == a[n]);
    lemma_run_len_is(a + b, other_than(x), n);
}

/// What stands before the first `x` of `s` is free of `x`, and where the
/// index of the first `x` is inside `s`, `x` stands there.
pub proof fn lemma_index_of_props<T>(s: Seq<T>, x: T)
    ensures
        index_of(s, x) <= s.len(),
        free_of(s.take(index_of(s, x) as int), x),
        index_of(s, x) < s.len() ==> s[index_of(s, x) as int] == x,
{
    lemma_run_len_props(s, other_than(x));
    let front = s.take(index_of(s, x) as int);
    assert forall|j: int| 0 <= j < front.len() implies #[trigger] front[j] != x by {
        assert(front[j] == s[j]);
        assert(other_than(x)(s[j]));
    }
}

/// The Unicode `White_Space` property, the set that `char::is_whitespace`
/// tests.
pub open spec fn is_space(c: char) -> bool {
    let u = c as u32;
    ||| 0x09 <= u <= 0x0D
    ||| u == 0x20
    ||| u == 0x85
    ||| u == 0xA0
    ||| u == 0x1680
    ||| 0x2000 <= u <= 0x200A
    ||| u == 0x2028
    ||| u == 0x2029
    ||| u == 0x202F
    ||| u == 0x205F
    ||| u == 0x3000
}

/// The predicate "is whitespace".
pub open spec fn space() -> spec_fn(char) -> bool {
    |c: char| is_space(c)
}

/// The predicate "is not whitespace".
pub open spec fn not_space() -> spec_fn(char) -> bool {
    |c: char| !is_space(c)
}

/// Whether `c` is whitespace.
pub fn is_whitespace(c: char) -> (b: bool)
    ensures
        b == is_space(c),
{
    let u: u32 = c as u32;
    (0x09 <= u && u <= 0x0D) || u == 0x20 || u == 0x85 || u == 0xA0 || u == 0x1680 || (0x2000 <= u
        && u <= 0x200A) || u == 0x2028 || u == 0x2029 || u == 0x202F || u == 0x205F || u == 0x3000
}

/// First position at or after `from` that holds `x`, or the length of
/// `bytes` if no such position exists.
pub fn find_byte(bytes: &[u8], from: usize, x: u8) -> (k: usize)
    requires
        from <= bytes@.len(),
    ensures
        from <= k <= bytes@.len(),
        k == from + index_of(bytes@.skip(from as int), x),
{
    let mut k: usize = from;
    while k < bytes.len() && bytes[k] != x
        invariant
            from <= k <= bytes@.len(),
            forall|j: int| from <= j < k ==> bytes@[j] != x,
        decreases bytes@.len() - k,
    {
        k += 1;
    }
    proof {
        let rest = bytes@.skip(from as int);
        assert forall|j: int| 0 <= j < k - from implies other_than(x)(#[trigger] rest[j]) by {
            assert(rest[j] == bytes@[from + j]);
        }
        lemma_run_len_is(rest, other_than(x), k - from);
    }
    k
}

/// First position at or after `from` that holds `x`, or the length of
/// `chars` if no such position exists.
pub fn find_char(chars: &[char], from: usize, x: char) -> (k: usize)
    requires
        from <= chars@.len(),
    ensures
        from <= k <= chars@.len(),
        k == from + index_of(chars@.skip(from as int), x),
{
    let mut k: usize = from;
    while k < chars.len() && chars[k] != x
        invariant
            from <= k <= chars@.len(),
            forall|j: int| from <= j < k ==> chars@[j] != x,
        decreases chars@.len() - k,
    {
        k += 1;
    }
    proof {
        let rest = chars@.skip(from as int);
        assert forall|j: int| 0 <= j < k - from implies other_than(x)(#[trigger] rest[j]) by {
            assert(rest[j] == chars@[from + j]);
        }
        lemma_run_len_is(rest, other_than(x), k - from);
    }
    k
}

/// End of the whitespace run that starts at `from`.
pub fn skip_spaces(chars: &[char], from: usize) -> (k: usize)
    requires
        from <= chars@.len(),
    ensures
        from <= k <= chars@.len(),
        k == from + run_len(chars@.skip(from as int), space()),
{
    let mut k: usize = from;
    while k < chars.len() && is_whitespace(chars[k])
        invariant
            from <= k <= chars@.len(),
            forall|j: int| from <= j < k ==> is_space(chars@[j]),
        decreases chars@.len() - k,
    {
        k += 1;
    }
    proof {
        let rest = chars@.skip(from as int);
        assert forall|j: int| 0 <= j < k - from implies space()(#[trigger] rest[j]) by {
            assert(rest[j] == chars@[from + j]);
        }
        lemma_run_len_is(rest, space(), k - from);
    }
    k
}

/// End of the run without whitespace that starts at `from`.
pub fn skip_word(chars: &[char], from: usize) -> (k: usize)
    requires
        from <= chars@.len(),
    ensures
        from <= k <= chars@.len(),
        k == from + run_len(chars@.skip(from as int), not_space()),
{
    let mut k: usize = from;
    while k < chars.len() && !is_whitespace(chars[k])
        invariant
            from <= k <= chars@.len(),
            forall|j: int| from <= j < k ==> !is_space(chars@[j]),
        decreases chars@.len() - k,
    {
        k += 1;
    }
    proof {
        let rest = chars@.skip(from as int);
        assert forall|j: int| 0 <= j < k - from implies not_space()(#[trigger] rest[j]) by {
            assert(rest[j] == chars@[from + j]);
        }
        lemma_run_len_is(rest, not_space(), k - from);
    }
    k
}

} // verus!
