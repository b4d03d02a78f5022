use vstd::prelude::*;
use vstd::string::StringSliceAdditionalSpecFns;

verus! {

/// Holds of an ASCII decimal digit.
pub open spec fn is_digit(c: u8) -> bool {
    48 <= c <= 57
}

/// The value of a string of decimal digits.
pub open spec fn digits_value(d: Seq<u8>) -> int
    decreases d.len(),
{
    if d.len() == 0 {
        0
    } else {
        digits_value(d.drop_last()) * 10 + (d.last() - 48)
    }
}

/// The digits of a setting, after an optional leading `+`.
pub open spec fn unsigned_digits(b: Seq<u8>) -> Seq<u8> {
    if b.len() > 0 && b[0] == 43 {
        b.drop_first()
    } else {
        b
    }
}

/// What an unsigned decimal setting denotes: an optional `+`, then one or
/// more digits whose value fits a `usize`.
pub open spec fn spec_parse_usize(b: Seq<u8>) -> Option<int> {
    let d = unsigned_digits(b);
    if d.len() > 0 && (forall|i: int| 0 <= i < d.len() ==> is_digit(#[trigger] d[i]))
        && digits_value(d) <= usize::MAX {
        Some(digits_value(d))
    } else {
        None
    }
}

proof fn lemma_digits_value_nonneg(d: Seq<u8>)
    requires
        forall|i: int| 0 <= i < d.len() ==> is_digit(#[trigger] d[i]),
    ensures
        digits_value(d) >= 0,
    decreases d.len(),
{
    if d.len() > 0 {
        let e = d.drop_last();
        assert forall|i: int| 0 <= i < e.len() implies is_digit(#[trigger] e[i]) by {
            assert(e[i] == d[i]);
        }
        lemma_digits_value_nonneg(e);
        assert(is_digit(d[d.len() - 1]));
    }
}

proof fn lemma_digits_value_prefix(d: Seq<u8>, k: int)
    requires
        0 <= k <= d.len(),
        forall|i: int| 0 <= i < d.len() ==> is_digit(#[trigger] d[i]),
    ensures
        0 <= digits_value(d.take(k)) <= digits_value(d),
    decreases d.len() - k,
{
    if k < d.len() {
        lemma_digits_value_prefix(d, k + 1);
        assert(d.take(k + 1).drop_last() == d.take(k));
        assert(d.take(k + 1).last() == d[k]);
        assert(is_digit(d[k]));
        let t = d.take(k);
        assert forall|i: int| 0 <= i < t.len() implies is_digit(#[trigger] t[i]) by {
            assert(t[i] == d[i]);
        }
        lemma_digits_value_nonneg(t);
    } else {
        assert(d.take(k) == d);
        lemma_digits_value_nonneg(d);
    }
}

/// Parses an unsigned decimal setting: an optional `+`, then digits.
pub fn parse_usize(s: &str) -> (r: Option<usize>)
    ensures
        r matches Some(v) ==> spec_parse_usize(s.spec_bytes()) == Some(v as int),
        r is None ==> spec_parse_usize(s.spec_bytes()) is None,
{
    let b = s.as_bytes();
    let ghost bytes = b@;
    assert(bytes == s.spec_bytes());
    let ghost d = unsigned_digits(bytes);
    let start: usize = if b.len() > 0 && b[0] == 43u8 {
        1
    } else {
        0
    };
    if start >= b.len() {
        return None;
    }
    proof {
        assert(d == bytes.subrange(start as int, bytes.len() as int));
    }
    let mut acc: usize = 0;
    let mut i: usize = start;
    while i < b.len()
        invariant
            start <= i <= b.len(),
            b@ == bytes,
            d == bytes.subrange(start as int, bytes.len() as int),
            d == unsigned_digits(bytes),
            bytes == s.spec_bytes(),
            forall|j: int| 0 <= j < i - start ==> is_digit(#[trigger] d[j]),
            acc == digits_value(d.take(i - start)),
        decreases b.len() - i,
    {
        let c = b[i];
        proof {
            assert(d[i - start] == c);
        }
        if c < 48u8 || c > 57u8 {
            proof {
                assert(!is_digit(d[i - start]));
            }
            return None;
        }
        proof {
            assert(d.take(i - start + 1).drop_last() == d.take(i - start));
            assert(d.take(i - start + 1).last() == c);
        }
        let next: u128 = acc as u128 * 10 + (c - 48u8) as u128;
        if next > usize::MAX as u128 {
            proof {
                if forall|j: int| 0 <= j < d.len() ==> is_digit(#[trigger] d[j]) {
                    lemma_digits_value_prefix(d, i - start + 1);
                }
            }
            return None;
        }
        acc = next as usize;
        i = i + 1;
    }
    proof {
        assert(d.take(d.len() as int) == d);
    }
    Some(acc)
}

/// The memory budget of the in-memory shuffle, as read from its setting.
#[derive(Debug, Clone, Copy, PartialEq, Eq)]
pub struct MemoryLimitSetting {
    /// The budget in bytes; `None` for no bound.
    pub limit: Option<usize>,
    /// The setting was present but not a number: worth a warning.
    pub malformed: bool,
}

/// Reads the memory budget from its setting: absent means unbounded; a
/// setting that is not an unsigned number also means unbounded, and is
/// reported as malformed.
pub fn memory_limit_from_setting(value: Option<&str>) -> (r: MemoryLimitSetting)
    ensures
        value is None ==> r.limit is None && !r.malformed,
        value matches Some(s) ==> match spec_parse_usize(s.spec_bytes()) {
            Some(v) => r.limit == Some(v as usize) && !r.malformed,
            None => r.limit is None && r.malformed,
        },
{
    match value {
        None => MemoryLimitSetting { limit: None, malformed: false },
        Some(s) => match parse_usize(s) {
            Some(v) => MemoryLimitSetting { limit: Some(v), malformed: false },
            None => MemoryLimitSetting { limit: None, malformed: true },
        },
    }
}

} // verus!
