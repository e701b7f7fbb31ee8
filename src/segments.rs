//! Which files of the data directory are segments, and in what order.
use vstd::prelude::*;
use vstd::string::StrSliceExecFns;

verus! {

pub open spec fn is_digit(c: char) -> bool {
    '0' <= c <= '9'
}

/// The value of a string of decimal digits.
pub open spec fn decimal(s: Seq<char>) -> int
    decreases s.len(),
{
    if s.len() == 0 {
        0
    } else {
        decimal(s.drop_last()) * 10 + (s.last() as int - '0' as int)
    }
}

/// The id of a segment file named `<n>.log`, `n` a decimal `u32`.
pub open spec fn log_id(name: Seq<char>) -> Option<u32> {
    let n = name.len() as int;
    let stem = name.subrange(0, n - 4);
    if n > 4 && name[n - 4] == '.' && name[n - 3] == 'l' && name[n - 2] == 'o' && name[n - 1] == 'g'
        && (forall|i: int| 0 <= i < stem.len() ==> is_digit(#[trigger] stem[i])) && decimal(stem)
        <= u32::MAX {
        Some(decimal(stem) as u32)
    } else {
        None
    }
}

pub open spec fn ascending(v: Seq<u32>) -> bool {
    forall|a: int, b: int| 0 <= a < b < v.len() ==> v[a] < v[b]
}

proof fn lemma_decimal_grows(s: Seq<char>, i: int)
    requires
        0 <= i <= s.len(),
        forall|k: int| 0 <= k < s.len() ==> is_digit(#[trigger] s[k]),
    ensures
        decimal(s.subrange(0, i)) <= decimal(s),
        decimal(s) >= 0,
    decreases s.len() - i,
{
    if i < s.len() {
        lemma_decimal_grows(s, i + 1);
        assert(s.subrange(0, i + 1).drop_last() =~= s.subrange(0, i));
        lemma_decimal_nonneg(s.subrange(0, i));
    } else {
        assert(s.subrange(0, i) =~= s);
        lemma_decimal_nonneg(s);
    }
}

proof fn lemma_decimal_nonneg(s: Seq<char>)
    requires
        forall|k: int| 0 <= k < s.len() ==> is_digit(#[trigger] s[k]),
    ensures
        decimal(s) >= 0,
    decreases s.len(),
{
    if s.len() > 0 {
        lemma_decimal_nonneg(s.drop_last());
    }
}

/// The segment id that the file name stands for, if any.
pub fn parse_log_id(name: &String) -> (r: Option<u32>)
    ensures
        r == log_id(name@),
{
    let s = name.as_str();
    let n = s.unicode_len();
    if n <= 4 {
        return None;
    }
    if s.get_char(n - 4) != '.' || s.get_char(n - 3) != 'l' || s.get_char(n - 2) != 'o' || s.get_char(
        n - 1,
    ) != 'g' {
        return None;
    }
    let ghost stem = name@.subrange(0, n - 4);
    let mut acc: u64 = 0;
    let mut i: usize = 0;
    while i < n - 4
        invariant
            n == name@.len(),
            s@ == name@,
            n > 4,
            stem == name@.subrange(0, n - 4),
            i <= n - 4,
            forall|k: int| 0 <= k < i ==> is_digit(#[trigger] stem[k]),
            acc == decimal(stem.subrange(0, i as int)),
            acc <= u32::MAX,
        decreases n - 4 - i,
    {
        let c = s.get_char(i);
        if c < '0' || c > '9' {
            proof {
                assert(stem[i as int] == c);
                assert(!is_digit(stem[i as int]));
            }
            return None;
        }
        let d = (c as u32 - '0' as u32) as u64;
        proof {
            assert(stem.subrange(0, i + 1).drop_last() =~= stem.subrange(0, i as int));
        }
        if acc * 10 + d > u32::MAX as u64 {
            proof {
                assert(decimal(stem.subrange(0, i + 1)) == acc * 10 + d);
                if forall|k: int| 0 <= k < stem.len() ==> is_digit(#[trigger] stem[k]) {
                    lemma_decimal_grows(stem, i + 1);
                }
            }
            return None;
        }
        acc = acc * 10 + d;
        i = i + 1;
    }
    proof {
        assert(stem.subrange(0, i as int) =~= stem);
    }
    Some(acc as u32)
}

/// Adds `x` to the ascending ids `v`, where it is not there yet.
fn insert_sorted(v: &mut Vec<u32>, x: u32)
    requires
        ascending(old(v)@),
    ensures
        ascending(final(v)@),
        forall|y: u32| final(v)@.contains(y) <==> (old(v)@.contains(y) || y == x),
{
    let mut p: usize = 0;
    while p < v.len() && v[p] < x
        invariant
            p <= v@.len(),
            v@ == old(v)@,
            ascending(v@),
            forall|k: int| 0 <= k < p ==> v@[k] < x,
        decreases v@.len() - p,
    {
        p = p + 1;
    }
    if p < v.len() && v[p] == x {
        return;
    }
    v.insert(p, x);
    proof {
        let o = old(v)@;
        assert forall|a: int, b: int| 0 <= a < b < v@.len() implies v@[a] < v@[b] by {
            if b < p {
            } else if b == p {
            } else if a < p {
                assert(o[b - 1] >= o[p as int] || b - 1 == p);
            } else if a == p {
                assert(o[b - 1] >= o[p as int]);
            } else {
                assert(o[a - 1] < o[b - 1]);
            }
        }
        assert forall|y: u32| v@.contains(y) <==> (o.contains(y) || y == x) by {
            if o.contains(y) {
                let k = choose|k: int| 0 <= k < o.len() && o[k] == y;
                if k < p {
                    assert(v@[k] == y);
                } else {
                    assert(v@[k + 1] == y);
                }
            }
            if y == x {
                assert(v@[p as int] == x);
            }
            if v@.contains(y) {
                let k = choose|k: int| 0 <= k < v@.len() && v@[k] == y;
                if k < p {
                    assert(o[k] == y);
                } else if k > p {
                    assert(o[k - 1] == y);
                }
            }
        }
    }
}

/// The ids of the segment files among `names`, ascending, each once.
pub fn segment_ids(names: &Vec<String>) -> (r: Vec<u32>)
    ensures
        ascending(r@),
        forall|id: u32|
            r@.contains(id) <==> exists|i: int|
                0 <= i < names@.len() && log_id((#[trigger] names@[i])@) == Some(id),
{
    let mut ids: Vec<u32> = Vec::new();
    let mut i: usize = 0;
    while i < names.len()
        invariant
            i <= names@.len(),
            ascending(ids@),
            forall|id: u32|
                ids@.contains(id) <==> exists|j: int|
                    0 <= j < i && log_id((#[trigger] names@[j])@) == Some(id),
        decreases names@.len() - i,
    {
        match parse_log_id(&names[i]) {
            Some(id) => insert_sorted(&mut ids, id),
            None => {},
        }
        proof {
            assert forall|id: u32|
                ids@.contains(id) <==> exists|j: int|
                    0 <= j < i + 1 && log_id((#[trigger] names@[j])@) == Some(id) by {
                if exists|j: int| 0 <= j < i + 1 && log_id((#[trigger] names@[j])@) == Some(id) {
                    let j = choose|j: int| 0 <= j < i + 1 && log_id((#[trigger] names@[j])@) == Some(id);
                    if j < i {
                    }
                }
            }
        }
        i = i + 1;
    }
    ids
}

} // verus!
