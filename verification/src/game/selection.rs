use vstd::prelude::*;
use vstd::string::StrSliceExecFns;

verus! {

/// What the player clicked: a card of a player's hand (the player and the position), a
/// basis on the field, one of the buttons (0 cancels the card being played, 1 confirms
/// a multiple selection), or anything else.
#[derive(Copy, Clone, Debug, PartialEq, Eq, Structural)]
pub enum Selection {
    Hand(u32, usize),
    Field(usize),
    Button(usize),
    Other,
}

/// The position of the first `=` of `s` at or after `from`; the length of `s` where
/// there is none.
pub open spec fn first_eq(s: Seq<char>, from: int) -> int
    decreases s.len() - from,
{
    if from >= s.len() {
        s.len() as int
    } else if s[from] == '=' {
        from
    } else {
        first_eq(s, from + 1)
    }
}

/// Whether each character of `d` is a decimal digit.
pub open spec fn all_digits(d: Seq<char>) -> bool {
    forall|i: int| 0 <= i < d.len() ==> '0' <= #[trigger] d[i] <= '9'
}

/// The number that the decimal digits `d` write.
pub open spec fn digits_value(d: Seq<char>) -> int
    decreases d.len(),
{
    if d.len() == 0 {
        0
    } else {
        digits_value(d.drop_last()) * 10 + (d.last() as int - '0' as int)
    }
}

/// The unsigned number that `v` writes: decimal digits, at least one, after an optional
/// `+`, of a value that fits a `usize`; `None` otherwise.
pub open spec fn usize_of(v: Seq<char>) -> Option<usize> {
    if v.len() > 0 && v[0] == '+' {
        digits_usize(v.drop_first())
    } else {
        digits_usize(v)
    }
}

/// The number that the decimal digits `d` write, where there is at least one and the
/// number fits a `usize`; `None` otherwise.
pub open spec fn digits_usize(d: Seq<char>) -> Option<usize> {
    if d.len() == 0 || !all_digits(d) || digits_value(d) > usize::MAX {
        None
    } else {
        Some(digits_value(d) as usize)
    }
}

/// The selection that a hit-region id names: the id is a key, `=`, and a number (up to
/// the next `=`, if any); the keys `p1` and `p2` name a card of a player's hand, `f` a
/// field slot, `x` a button, and any other key something else. `None` where the id has
/// no `=` or the number is not one.
pub open spec fn selection_of(id: Seq<char>) -> Option<Selection> {
    let k = first_eq(id, 0);
    if k >= id.len() {
        None
    } else {
        let key = id.subrange(0, k);
        match usize_of(id.subrange(k + 1, first_eq(id, k + 1))) {
            None => None,
            Some(n) => Some(
                if key == seq!['p', '1'] {
                    Selection::Hand(1, n)
                } else if key == seq!['p', '2'] {
                    Selection::Hand(2, n)
                } else if key == seq!['f'] {
                    Selection::Field(n)
                } else if key == seq!['x'] {
                    Selection::Button(n)
                } else {
                    Selection::Other
                },
            ),
        }
    }
}

/// Digits written after more digits write a number at least as large.
proof fn lemma_digits_grow(d: Seq<char>, j: int)
    requires
        0 <= j <= d.len(),
        all_digits(d),
    ensures
        digits_value(d.take(j)) <= digits_value(d),
    decreases d.len(),
{
    if j < d.len() {
        assert(d.drop_last().take(j) =~= d.take(j));
        lemma_digits_grow(d.drop_last(), j);
        lemma_digits_nonneg(d.drop_last());
    } else {
        assert(d.take(j) =~= d);
    }
}

/// Decimal digits write a number of at least 0.
proof fn lemma_digits_nonneg(d: Seq<char>)
    requires
        all_digits(d),
    ensures
        digits_value(d) >= 0,
    decreases d.len(),
{
    if d.len() > 0 {
        lemma_digits_nonneg(d.drop_last());
    }
}

/// The position of the first `=` of `id` at or after `from` (see `first_eq`).
fn find_eq(id: &str, from: usize) -> (r: usize)
    requires
        from <= id@.len(),
    ensures
        r == first_eq(id@, from as int),
{
    let n = id.unicode_len();
    let mut k = from;
    while k < n && id.get_char(k) != '='
        invariant
            from <= k <= n,
            n == id@.len(),
            first_eq(id@, from as int) == first_eq(id@, k as int),
        decreases n - k,
    {
        k = k + 1;
    }
    k
}

/// The key of an id compared with a short key.
fn key_is(id: &str, k: usize, key: &str) -> (r: bool)
    requires
        k <= id@.len(),
    ensures
        r == (id@.subrange(0, k as int) == key@),
{
    let n = key.unicode_len();
    if n != k {
        return false;
    }
    let mut i: usize = 0;
    while i < n
        invariant
            i <= n,
            n == k,
            n == key@.len(),
            k <= id@.len(),
            forall|j: int| 0 <= j < i ==> id@[j] == key@[j],
        decreases n - i,
    {
        if id.get_char(i) != key.get_char(i) {
            proof {
                assert(id@.subrange(0, k as int)[i as int] != key@[i as int]);
            }
            return false;
        }
        i = i + 1;
    }
    proof {
        assert(id@.subrange(0, k as int) =~= key@);
    }
    true
}

/// Whether two strings hold the same characters.
pub fn str_eq(a: &str, b: &str) -> (r: bool)
    ensures
        r == (a@ == b@),
{
    let n = a.unicode_len();
    if n != b.unicode_len() {
        return false;
    }
    let mut i: usize = 0;
    while i < n
        invariant
            i <= n,
            n == a@.len(),
            n == b@.len(),
            forall|j: int| 0 <= j < i ==> a@[j] == b@[j],
        decreases n - i,
    {
        if a.get_char(i) != b.get_char(i) {
            return false;
        }
        i = i + 1;
    }
    proof {
        assert(a@ =~= b@);
    }
    true
}

/// The number written in `id` from `start` to `end` (see `usize_of`).
fn parse_usize(id: &str, start: usize, end: usize) -> (r: Option<usize>)
    requires
        start <= end <= id@.len(),
    ensures
        r == usize_of(id@.subrange(start as int, end as int)),
{
    let ghost v = id@.subrange(start as int, end as int);
    let mut i = start;
    if i < end && id.get_char(i) == '+' {
        i = i + 1;
    }
    let ghost d = id@.subrange(i as int, end as int);
    proof {
        if v.len() > 0 && v[0] == '+' {
            assert(d =~= v.drop_first());
        } else {
            assert(d =~= v);
        }
    }
    if i == end {
        return None;
    }
    let first = i;
    let mut val: usize = 0;
    while i < end
        invariant
            first <= i <= end,
            end <= id@.len(),
            d == id@.subrange(first as int, end as int),
            usize_of(v) == digits_usize(d),
            v == id@.subrange(start as int, end as int),
            d.len() > 0,
            all_digits(d.take(i - first)),
            val == digits_value(d.take(i - first)),
        decreases end - i,
    {
        let c = id.get_char(i);
        let code = c as u32;
        proof {
            assert(d[i - first] == c);
        }
        if code < 48 || code > 57 {
            proof {
                assert(!('0' <= d[i - first] <= '9'));
            }
            return None;
        }
        proof {
            assert(d.take(i - first + 1).drop_last() =~= d.take(i - first));
            assert(d.take(i - first + 1).last() == c);
        }
        let digit = (code - 48) as usize;
        let next = match val.checked_mul(10) {
            Some(t) => t.checked_add(digit),
            None => None,
        };
        match next {
            Some(w) => {
                val = w;
            },
            None => {
                proof {
                    if all_digits(d) {
                        lemma_digits_grow(d, i - first + 1);
                    }
                }
                return None;
            },
        }
        i = i + 1;
    }
    proof {
        assert(d.take(i - first) =~= d);
    }
    Some(val)
}

/// The selection that a hit-region id names (see `selection_of`).
pub fn parse_selection(id: &str) -> (r: Option<Selection>)
    ensures
        r == selection_of(id@),
{
    let n = id.unicode_len();
    let k = find_eq(id, 0);
    if k >= n {
        return None;
    }
    let e = find_eq(id, k + 1);
    proof {
        lemma_first_eq_bounds(id@, k + 1);
        lemma_first_eq_bounds(id@, 0);
        reveal_strlit("p1");
        reveal_strlit("p2");
        reveal_strlit("f");
        reveal_strlit("x");
        assert("p1"@ =~= seq!['p', '1']);
        assert("p2"@ =~= seq!['p', '2']);
        assert("f"@ =~= seq!['f']);
        assert("x"@ =~= seq!['x']);
    }
    let value = match parse_usize(id, k + 1, e) {
        Some(v) => v,
        None => {
            return None;
        },
    };
    if key_is(id, k, "p1") {
        Some(Selection::Hand(1, value))
    } else if key_is(id, k, "p2") {
        Some(Selection::Hand(2, value))
    } else if key_is(id, k, "f") {
        Some(Selection::Field(value))
    } else if key_is(id, k, "x") {
        Some(Selection::Button(value))
    } else {
        Some(Selection::Other)
    }
}

/// The first `=` at or after `from` is between `from` and the end.
proof fn lemma_first_eq_bounds(s: Seq<char>, from: int)
    requires
        0 <= from <= s.len(),
    ensures
        from <= first_eq(s, from) <= s.len(),
    decreases s.len() - from,
{
    if from < s.len() && s[from] != '=' {
        lemma_first_eq_bounds(s, from + 1);
    }
}

} // verus!
