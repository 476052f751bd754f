use vstd::prelude::*;
use vstd::string::StringSliceAdditionalSpecFns;

use crate::config_value::{eq_ignore_ascii_case, eq_ignore_case, false_variant_of, true_variant_of, Boolean};

verus! {

/// One assignment of a configuration file, in file order.
#[derive(Debug, Clone)]
pub struct ConfigEntry {
    pub section: Vec<u8>,
    pub subsection: Option<Vec<u8>>,
    pub name: Vec<u8>,
    /// `None` for a name given without `= <value>`.
    pub value: Option<Vec<u8>>,
}

/// A value that is there but does not have the requested type.
#[derive(Debug, Clone, Copy, PartialEq, Eq, Structural)]
pub struct ValueError;

/// The resolved configuration, frozen in time; of several assignments to one key the last one wins.
pub struct Snapshot {
    pub entries: Vec<ConfigEntry>,
}

/// The first `.` at or after `i`.
pub open spec fn dot_from(k: Seq<u8>, i: int) -> Option<int>
    decreases k.len() - i,
{
    if i < 0 || i >= k.len() {
        None
    } else if k[i] == 46 {
        Some(i)
    } else {
        dot_from(k, i + 1)
    }
}

/// The last `.` before `n`.
pub open spec fn dot_before(k: Seq<u8>, n: int) -> Option<int>
    decreases n,
{
    if n <= 0 || n > k.len() {
        None
    } else if k[n - 1] == 46 {
        Some(n - 1)
    } else {
        dot_before(k, n - 1)
    }
}

/// Whether `e` is an assignment to the key `k`, which reads `section.[subsection.]name`: section
/// and name compare without regard to ASCII case, the subsection exactly.
pub open spec fn entry_matches(e: ConfigEntry, k: Seq<u8>) -> bool {
    match (dot_from(k, 0), dot_before(k, k.len() as int)) {
        (Some(first), Some(last)) => eq_ignore_case(e.section@, k.subrange(0, first)) && eq_ignore_case(
            e.name@,
            k.subrange(last + 1, k.len() as int),
        ) && if first == last {
            e.subsection is None
        } else {
            e.subsection matches Some(sub) && sub@ == k.subrange(first + 1, last)
        },
        _ => false,
    }
}

/// The last of the first `n` entries that assigns the key `k`.
pub open spec fn last_match(es: Seq<ConfigEntry>, k: Seq<u8>, n: int) -> Option<int>
    decreases n,
{
    if n <= 0 || n > es.len() {
        None
    } else if entry_matches(es[n - 1], k) {
        Some(n - 1)
    } else {
        last_match(es, k, n - 1)
    }
}

/// The value of the last assignment to `k`, if any.
pub open spec fn value_of(es: Seq<ConfigEntry>, k: Seq<u8>) -> Option<Option<Seq<u8>>> {
    match last_match(es, k, es.len() as int) {
        None => None,
        Some(i) => Some(
            match es[i].value {
                None => None,
                Some(v) => Some(v@),
            },
        ),
    }
}

/// The boolean a value reads as: a name without value is true.
pub open spec fn boolean_of(v: Option<Seq<u8>>) -> Result<bool, ValueError> {
    match v {
        None => Ok(true),
        Some(s) => if true_variant_of(s) is Some {
            Ok(true)
        } else if false_variant_of(s) is Some {
            Ok(false)
        } else {
            Err(ValueError)
        },
    }
}

/// The value of a decimal digit string.
pub open spec fn digits_value(s: Seq<u8>) -> nat
    decreases s.len(),
{
    if s.len() == 0 { 0 } else { digits_value(s.drop_last()) * 10 + (s.last() - 48) as nat }
}

/// All bytes are decimal digits.
pub open spec fn all_digits(s: Seq<u8>) -> bool {
    forall|i: int| 0 <= i < s.len() ==> 48 <= #[trigger] s[i] <= 57
}

/// The factor a size suffix stands for: `k`, `m` or `g` in either case.
pub open spec fn suffix_factor(b: u8) -> Option<nat> {
    if b == 107 || b == 75 {
        Some(1024)
    } else if b == 109 || b == 77 {
        Some(0x10_0000)
    } else if b == 103 || b == 71 {
        Some(0x4000_0000)
    } else {
        None
    }
}

/// The integer a value reads as: an optional `-`, decimal digits, an optional size suffix; it
/// must fit 64 bits.
pub open spec fn integer_of(s: Seq<u8>) -> Option<i64> {
    let neg = s.len() > 0 && s[0] == 45;
    let digits = integer_digits(s);
    let factor = integer_factor(s);
    if digits.len() == 0 || !all_digits(digits) {
        None
    } else {
        let v: int = if neg { -(digits_value(digits) * factor) } else { (digits_value(digits) * factor) as int };
        if i64::MIN <= v <= i64::MAX { Some(v as i64) } else { None }
    }
}

/// What follows the sign of an integer value.
pub open spec fn integer_body(s: Seq<u8>) -> Seq<u8> {
    if s.len() > 0 && s[0] == 45 { s.subrange(1, s.len() as int) } else { s }
}

/// The digits of an integer value: its body without the suffix.
pub open spec fn integer_digits(s: Seq<u8>) -> Seq<u8> {
    let body = integer_body(s);
    if body.len() > 0 && suffix_factor(body.last()) is Some { body.drop_last() } else { body }
}

/// The factor of an integer value's suffix, one without suffix.
pub open spec fn integer_factor(s: Seq<u8>) -> nat {
    let body = integer_body(s);
    if body.len() > 0 && suffix_factor(body.last()) is Some { suffix_factor(body.last())->Some_0 } else { 1 }
}

proof fn lemma_digits_grow(s: Seq<u8>, k: int)
    requires
        0 <= k <= s.len(),
        all_digits(s),
    ensures
        digits_value(s.subrange(0, k)) <= digits_value(s),
    decreases s.len() - k,
{
    if k < s.len() {
        lemma_digits_grow(s, k + 1);
        assert(s.subrange(0, k + 1).drop_last() =~= s.subrange(0, k));
    } else {
        assert(s.subrange(0, k) =~= s);
    }
}

/// Read an integer value.
pub fn parse_integer(s: &[u8]) -> (r: Option<i64>)
    ensures
        r == integer_of(s@),
{
    let n = s.len();
    let neg = n > 0 && s[0] == 45;
    let start: usize = if neg { 1 } else { 0 };
    let body = vstd::slice::slice_subrange(s, start, n);
    assert(body@ == if neg { s@.subrange(1, s@.len() as int) } else { s@ }) by {
        if !neg {
            assert(s@.subrange(0, n as int) =~= s@);
        }
    }
    let m = body.len();
    let mut end = m;
    let mut factor: u128 = 1;
    if m > 0 {
        let b = body[m - 1];
        if b == 107 || b == 75 {
            end = m - 1;
            factor = 1024;
        } else if b == 109 || b == 77 {
            end = m - 1;
            factor = 0x10_0000;
        } else if b == 103 || b == 71 {
            end = m - 1;
            factor = 0x4000_0000;
        }
    }
    let digits = vstd::slice::slice_subrange(body, 0, end);
    proof {
        if end == m {
            assert(digits@ =~= body@);
        } else {
            assert(digits@ =~= body@.drop_last());
        }
    }
    assert(digits@ == integer_digits(s@));
    assert(factor == integer_factor(s@));
    if end == 0 {
        return None;
    }
    let mut acc: u128 = 0;
    let mut i: usize = 0;
    while i < end
        invariant
            i <= end,
            end == digits@.len(),
            acc == digits_value(digits@.subrange(0, i as int)),
            acc <= 0x8000_0000_0000_0000,
            forall|j: int| 0 <= j < i ==> 48 <= #[trigger] digits@[j] <= 57,
            digits@ == integer_digits(s@),
            factor == integer_factor(s@),
            1 <= factor <= 0x4000_0000,
        decreases end - i,
    {
        let d = digits[i];
        if d < 48 || d > 57 {
            assert(!all_digits(digits@));
            return None;
        }
        assert(digits@.subrange(0, i as int + 1).drop_last() =~= digits@.subrange(0, i as int));
        acc = acc * 10 + (d - 48) as u128;
        i += 1;
        if acc > 0x8000_0000_0000_0000 {
            proof {
                assert forall|j: int| 0 <= j < i implies 48 <= #[trigger] digits@.subrange(0, i as int)[j] <= 57 by {}
                if all_digits(digits@) {
                    lemma_digits_grow(digits@, i as int);
                    assert(digits_value(digits@) * factor >= digits_value(digits@)) by (nonlinear_arith)
                        requires factor >= 1;
                }
            }
            return None;
        }
    }
    assert(digits@.subrange(0, end as int) =~= digits@);
    assert(acc * factor <= 0x8000_0000_0000_0000 * 0x4000_0000) by (nonlinear_arith)
        requires acc <= 0x8000_0000_0000_0000, factor <= 0x4000_0000;
    let v = acc * factor;
    if neg {
        if v > 0x8000_0000_0000_0000 {
            None
        } else {
            Some((0 - v as i128) as i64)
        }
    } else {
        if v > 0x7fff_ffff_ffff_ffff {
            None
        } else {
            Some(v as i64)
        }
    }
}

fn find_dot_from(k: &[u8], i: usize) -> (r: Option<usize>)
    ensures
        match r {
            None => dot_from(k@, i as int) is None,
            Some(d) => dot_from(k@, i as int) == Some(d as int) && d < k@.len() && k@[d as int] == 46,
        },
{
    let mut j = i;
    while j < k.len()
        invariant
            i <= j,
            dot_from(k@, j as int) == dot_from(k@, i as int),
        decreases k@.len() - j,
    {
        if k[j] == 46 {
            return Some(j);
        }
        j += 1;
    }
    None
}

fn find_dot_before(k: &[u8], n: usize) -> (r: Option<usize>)
    requires
        n <= k@.len(),
    ensures
        match r {
            None => dot_before(k@, n as int) is None,
            Some(d) => dot_before(k@, n as int) == Some(d as int) && d < n,
        },
{
    let mut j = n;
    while j > 0
        invariant
            j <= n,
            n <= k@.len(),
            dot_before(k@, j as int) == dot_before(k@, n as int),
        decreases j,
    {
        if k[j - 1] == 46 {
            return Some(j - 1);
        }
        j -= 1;
    }
    None
}

fn matches_key(e: &ConfigEntry, k: &[u8]) -> (r: bool)
    ensures
        r == entry_matches(*e, k@),
{
    let n = k.len();
    let first = match find_dot_from(k, 0) {
        None => return false,
        Some(d) => d,
    };
    let last = match find_dot_before(k, n) {
        None => return false,
        Some(d) => d,
    };
    if !eq_ignore_ascii_case(e.section.as_slice(), vstd::slice::slice_subrange(k, 0, first)) {
        return false;
    }
    if !eq_ignore_ascii_case(e.name.as_slice(), vstd::slice::slice_subrange(k, last + 1, n)) {
        return false;
    }
    if first == last {
        e.subsection.is_none()
    } else {
        assert(first < last) by {
            assert(k@[first as int] == 46);
            if last < first {
                lemma_dot_before_is_last(k@, n as int, first as int);
            }
        }
        match &e.subsection {
            None => false,
            Some(sub) => crate::bytes::bytes_equal(sub.as_slice(), vstd::slice::slice_subrange(k, first + 1, last)),
        }
    }
}

proof fn lemma_dot_before_is_last(k: Seq<u8>, n: int, x: int)
    requires
        0 <= x < n <= k.len(),
        k[x] == 46,
    ensures
        dot_before(k, n) matches Some(d) && d >= x,
    decreases n,
{
    if k[n - 1] != 46 {
        lemma_dot_before_is_last(k, n - 1, x);
    }
}

impl Snapshot {
    /// The index of the last assignment to `key`.
    fn find(&self, key: &[u8]) -> (r: Option<usize>)
        ensures
            match r {
                None => last_match(self.entries@, key@, self.entries@.len() as int) is None,
                Some(i) => last_match(self.entries@, key@, self.entries@.len() as int) == Some(i as int) && i
                    < self.entries@.len(),
            },
    {
        let mut n = self.entries.len();
        while n > 0
            invariant
                n <= self.entries@.len(),
                last_match(self.entries@, key@, n as int) == last_match(
                    self.entries@,
                    key@,
                    self.entries@.len() as int,
                ),
            decreases n,
        {
            if matches_key(&self.entries[n - 1], key) {
                return Some(n - 1);
            }
            n -= 1;
        }
        None
    }

    /// The text of the last assignment to `key`, empty for a name without value; `None` when
    /// nothing is assigned to it.
    pub fn string(&self, key: &str) -> (r: Option<Vec<u8>>)
        ensures
            match value_of(self.entries@, key.spec_bytes()) {
                None => r is None,
                Some(None) => r matches Some(v) && v@.len() == 0,
                Some(Some(v)) => r matches Some(x) && x@ == v,
            },
    {
        match self.find(key.as_bytes()) {
            None => None,
            Some(i) => match &self.entries[i].value {
                None => Some(Vec::new()),
                Some(v) => Some(v.clone()),
            },
        }
    }

    /// The last assignment to `key` read as a boolean, or the error that it is none; `None` when
    /// nothing is assigned to it.
    pub fn try_boolean(&self, key: &str) -> (r: Option<Result<bool, ValueError>>)
        ensures
            match value_of(self.entries@, key.spec_bytes()) {
                None => r is None,
                Some(v) => r == Some(boolean_of(v)),
            },
    {
        match self.find(key.as_bytes()) {
            None => None,
            Some(i) => match &self.entries[i].value {
                None => Some(Ok(true)),
                Some(v) => match Boolean::from_bytes(v.as_slice()) {
                    Ok(b) => Some(Ok(b.to_bool())),
                    Err(()) => Some(Err(ValueError)),
                },
            },
        }
    }

    /// The last assignment to `key` read as a boolean; `None` when nothing is assigned to it or
    /// it is not a boolean.
    pub fn boolean(&self, key: &str) -> (r: Option<bool>)
        ensures
            match value_of(self.entries@, key.spec_bytes()) {
                Some(v) if boolean_of(v) is Ok => r == Some(boolean_of(v)->Ok_0),
                _ => r is None,
            },
    {
        match self.try_boolean(key) {
            Some(Ok(b)) => Some(b),
            _ => None,
        }
    }

    /// The last assignment to `key` read as an integer, or the error that it is none; `None` when
    /// nothing is assigned to it.
    pub fn try_integer(&self, key: &str) -> (r: Option<Result<i64, ValueError>>)
        ensures
            match value_of(self.entries@, key.spec_bytes()) {
                None => r is None,
                Some(None) => r == Some(Err::<i64, ValueError>(ValueError)),
                Some(Some(v)) => r == Some(
                    match integer_of(v) {
                        Some(x) => Ok::<i64, ValueError>(x),
                        None => Err(ValueError),
                    },
                ),
            },
    {
        match self.find(key.as_bytes()) {
            None => None,
            Some(i) => match &self.entries[i].value {
                None => Some(Err(ValueError)),
                Some(v) => match parse_integer(v.as_slice()) {
                    Some(x) => Some(Ok(x)),
                    None => Some(Err(ValueError)),
                },
            },
        }
    }

    /// The last assignment to `key` read as an integer; `None` when nothing is assigned to it or
    /// it is not an integer.
    pub fn integer(&self, key: &str) -> (r: Option<i64>)
        ensures
            match value_of(self.entries@, key.spec_bytes()) {
                Some(Some(v)) if integer_of(v) is Some => r == integer_of(v),
                _ => r is None,
            },
    {
        match self.try_integer(key) {
            Some(Ok(x)) => Some(x),
            _ => None,
        }
    }

    /// All assignments, for what the accessors above do not cover.
    pub fn plumbing(&self) -> (r: &Vec<ConfigEntry>)
        ensures
            r@ == self.entries@,
    {
        &self.entries
    }
}

} // verus!
