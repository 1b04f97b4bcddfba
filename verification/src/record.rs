//! Records as they arrive: two fields, each a list of tokens parted by `|`.
//! The dimensions are unsigned decimal numbers; the weights have been turned
//! into bit patterns by the caller, token by token.

use vstd::prelude::*;
use vstd::slice::slice_subrange;
use crate::vector::{InputError, SparseVector};

verus! {

/// The byte that parts two tokens: `|`.
pub const SEPARATOR: u8 = 124;

/// The sign a number may start with: `+`.
pub const PLUS: u8 = 43;

/// The tokens of a field that is not empty: a separator closes one token and
/// opens the next, any other byte goes to the token that is open.
pub open spec fn split(field: Seq<u8>) -> Seq<Seq<u8>>
    decreases field.len(),
{
    if field.len() == 0 {
        seq![Seq::<u8>::empty()]
    } else {
        let before = split(field.drop_last());
        if field.last() == SEPARATOR {
            before.push(Seq::<u8>::empty())
        } else {
            before.update(before.len() - 1, before.last().push(field.last()))
        }
    }
}

/// The tokens of a field. An empty field has none.
pub open spec fn tokens(field: Seq<u8>) -> Seq<Seq<u8>> {
    if field.len() == 0 {
        Seq::<Seq<u8>>::empty()
    } else {
        split(field)
    }
}

pub open spec fn is_digit(b: u8) -> bool {
    48 <= b <= 57
}

pub open spec fn all_digits(s: Seq<u8>) -> bool {
    forall|k: int| 0 <= k < s.len() ==> is_digit(#[trigger] s[k])
}

/// The number that a run of decimal digits writes.
pub open spec fn digits_value(s: Seq<u8>) -> nat
    decreases s.len(),
{
    if s.len() == 0 {
        0
    } else {
        digits_value(s.drop_last()) * 10 + (s.last() - 48) as nat
    }
}

/// The dimension a token writes: an optional `+`, one decimal digit or
/// more, and a value that fits 32 bits.
pub open spec fn dimension_of(token: Seq<u8>) -> Option<u32> {
    let digits = if token.len() > 0 && token[0] == PLUS {
        token.drop_first()
    } else {
        token
    };
    if digits.len() > 0 && all_digits(digits) && digits_value(digits) <= u32::MAX {
        Some(digits_value(digits) as u32)
    } else {
        None
    }
}

/// Every token writes a dimension.
pub open spec fn all_dimensions(ts: Seq<Seq<u8>>) -> bool {
    forall|k: int| 0 <= k < ts.len() ==> dimension_of(#[trigger] ts[k]) is Some
}

/// The vector a record stands for, or the reason why it stands for none:
/// a token that writes no dimension comes first, a count of weights that
/// differs from the count of dimensions second.
pub open spec fn record_of(dimensions: Seq<u8>, weights: Seq<u64>) -> Result<Seq<(u32, u64)>, InputError> {
    let ts = tokens(dimensions);
    if !all_dimensions(ts) {
        Err(InputError::BadDimension)
    } else if ts.len() != weights.len() {
        Err(InputError::LengthMismatch)
    } else {
        Ok(Seq::new(ts.len(), |k: int| (dimension_of(ts[k])->0, weights[k])))
    }
}

/// The tokens put back together, a separator between each two.
pub open spec fn join(ts: Seq<Seq<u8>>) -> Seq<u8>
    decreases ts.len(),
{
    if ts.len() == 0 {
        Seq::<u8>::empty()
    } else if ts.len() == 1 {
        ts[0]
    } else {
        join(ts.drop_last()) + seq![SEPARATOR] + ts.last()
    }
}

/// Splitting loses nothing and leaves no separator behind: the tokens
/// joined are the field again, and no token holds a separator.
pub proof fn lemma_split_join(field: Seq<u8>)
    ensures
        join(split(field)) == field,
        forall|k: int, j: int|
            0 <= k < split(field).len() && 0 <= j < split(field)[k].len() ==> split(field)[k][j] != SEPARATOR,
    decreases field.len(),
{
    if field.len() == 0 {
        assert(split(field)[0] =~= Seq::<u8>::empty());
        assert(join(split(field)) =~= field);
    } else {
        let shorter = field.drop_last();
        let before = split(shorter);
        let b = field.last();
        lemma_split_join(shorter);
        lemma_split_not_empty(shorter);
        assert(field =~= shorter.push(b));
        if b == SEPARATOR {
            let after = before.push(Seq::<u8>::empty());
            assert(after.drop_last() =~= before);
            assert(join(after) =~= join(before) + seq![SEPARATOR] + Seq::<u8>::empty());
            assert(join(after) =~= field);
        } else {
            let grown = before.last().push(b);
            let after = before.update(before.len() - 1, grown);
            assert(after.last() == grown);
            if before.len() == 1 {
                assert(join(before) == before[0]);
                assert(join(after) == after[0]);
                assert(join(after) =~= field);
            } else {
                assert(after.drop_last() =~= before.drop_last());
                assert(join(after) =~= join(before.drop_last()) + seq![SEPARATOR] + grown);
                assert(join(before) =~= join(before.drop_last()) + seq![SEPARATOR] + before.last());
                assert(join(after) =~= join(before).push(b));
            }
            assert forall|k: int, j: int|
                0 <= k < after.len() && 0 <= j < after[k].len() implies after[k][j] != SEPARATOR by {
                if k < before.len() - 1 {
                    assert(after[k] == before[k]);
                } else if j < before.last().len() {
                    assert(after[k][j] == before[k][j]);
                }
            }
        }
    }
}

pub proof fn lemma_split_not_empty(field: Seq<u8>)
    ensures
        split(field).len() >= 1,
    decreases field.len(),
{
    if field.len() > 0 {
        lemma_split_not_empty(field.drop_last());
    }
}

/// A longer run of digits writes no smaller a number.
pub proof fn lemma_digits_grow(s: Seq<u8>, k: int)
    requires
        0 <= k <= s.len(),
        all_digits(s),
    ensures
        digits_value(s.take(k)) <= digits_value(s),
    decreases s.len() - k,
{
    if k < s.len() {
        let longer = s.take(k + 1);
        assert(longer.drop_last() =~= s.take(k));
        assert(is_digit(s[k]));
        assert(longer.last() == s[k]);
        lemma_digits_grow(s, k + 1);
    } else {
        assert(s.take(k) =~= s);
    }
}

/// Where each token of `field` starts and ends: `field[start..end]` for each
/// pair, in order.
pub fn token_spans(field: &[u8]) -> (spans: Vec<(usize, usize)>)
    ensures
        spans.len() == tokens(field@).len(),
        forall|i: int| 0 <= i < spans.len() ==> (#[trigger] spans[i]).0 <= spans[i].1 <= field.len(),
        forall|i: int| 0 <= i < spans.len() ==> field@.subrange((#[trigger] spans[i]).0 as int, spans[i].1 as int)
            == tokens(field@)[i],
{
    let mut spans: Vec<(usize, usize)> = Vec::new();
    let n: usize = field.len();
    if n == 0 {
        return spans;
    }
    let mut start: usize = 0;
    let mut k: usize = 0;
    proof {
        assert(field@.take(0) =~= Seq::<u8>::empty());
        assert(field@.subrange(0, 0) =~= Seq::<u8>::empty());
    }
    while k < n
        invariant
            n == field.len(),
            start <= k <= n,
            split(field@.take(k as int)).len() == spans.len() + 1,
            forall|i: int| 0 <= i < spans.len() ==> (#[trigger] spans[i]).0 <= spans[i].1 <= n,
            forall|i: int| 0 <= i < spans.len() ==> field@.subrange((#[trigger] spans[i]).0 as int, spans[i].1 as int)
                == split(field@.take(k as int))[i],
            field@.subrange(start as int, k as int) == split(field@.take(k as int)).last(),
        decreases n - k,
    {
        let ghost before = split(field@.take(k as int));
        let ghost old_spans = spans@;
        proof {
            assert(field@.take(k + 1).drop_last() =~= field@.take(k as int));
            assert(field@.take(k + 1).last() == field@[k as int]);
        }
        if field[k] == SEPARATOR {
            spans.push((start, k));
            start = k + 1;
            proof {
                let after = split(field@.take(k + 1));
                assert(after == before.push(Seq::<u8>::empty()));
                assert(field@.subrange(start as int, k + 1) =~= Seq::<u8>::empty());
                assert forall|i: int| 0 <= i < spans.len() implies field@.subrange(
                    (#[trigger] spans[i]).0 as int,
                    spans[i].1 as int,
                ) == after[i] by {
                    if i < old_spans.len() {
                        assert(spans[i] == old_spans[i]);
                    }
                }
            }
        } else {
            proof {
                let after = split(field@.take(k + 1));
                assert(after == before.update(before.len() - 1, before.last().push(field@[k as int])));
                assert(field@.subrange(start as int, k + 1) =~= field@.subrange(start as int, k as int).push(
                    field@[k as int],
                ));
            }
        }
        k += 1;
    }
    proof {
        assert(field@.take(n as int) =~= field@);
    }
    let ghost old_spans = spans@;
    spans.push((start, n));
    proof {
        assert forall|i: int| 0 <= i < spans.len() implies field@.subrange(
            (#[trigger] spans[i]).0 as int,
            spans[i].1 as int,
        ) == tokens(field@)[i] by {
            if i < old_spans.len() {
                assert(spans[i] == old_spans[i]);
            }
        }
    }
    spans
}

/// Reads a token as a dimension.
pub fn parse_dimension(token: &[u8]) -> (r: Option<u32>)
    ensures
        r == dimension_of(token@),
{
    let n: usize = token.len();
    let start: usize = if n > 0 && token[0] == PLUS {
        1
    } else {
        0
    };
    let ghost digits = token@.skip(start as int);
    proof {
        if start == 0 {
            assert(digits =~= token@);
        } else {
            assert(digits =~= token@.drop_first());
        }
    }
    if start >= n {
        return None;
    }
    let mut value: u64 = 0;
    let mut k: usize = start;
    proof {
        assert(digits.take(0) =~= Seq::<u8>::empty());
    }
    while k < n
        invariant
            n == token.len(),
            start <= k <= n,
            digits == token@.skip(start as int),
            digits == if token@.len() > 0 && token@[0] == PLUS {
                token@.drop_first()
            } else {
                token@
            },
            all_digits(digits.take(k - start)),
            value == digits_value(digits.take(k - start)),
            value <= u32::MAX,
        decreases n - k,
    {
        let b: u8 = token[k];
        let ghost shorter = digits.take(k - start);
        let ghost longer = digits.take(k - start + 1);
        proof {
            assert(digits[k - start] == b);
            assert(longer.drop_last() =~= shorter);
            assert(longer.last() == b);
        }
        if b < 48 || b > 57 {
            assert(!is_digit(digits[k - start]));
            return None;
        }
        value = value * 10 + (b - 48) as u64;
        proof {
            assert forall|i: int| 0 <= i < longer.len() implies is_digit(#[trigger] longer[i]) by {
                if i < shorter.len() {
                    assert(longer[i] == shorter[i]);
                }
            }
        }
        if value > u32::MAX as u64 {
            proof {
                if all_digits(digits) {
                    lemma_digits_grow(digits, k - start + 1);
                }
            }
            return None;
        }
        k += 1;
    }
    proof {
        assert(digits.take(k - start) =~= digits);
    }
    Some(value as u32)
}

/// Builds the vector of a record from its `dimensions` field and the bit
/// patterns of its weights.
pub fn parse_record(dimensions: &[u8], weights: &Vec<u64>) -> (r: Result<SparseVector, InputError>)
    ensures
        match r {
            Ok(v) => record_of(dimensions@, weights@) == Ok::<Seq<(u32, u64)>, InputError>(v@),
            Err(e) => record_of(dimensions@, weights@) == Err::<Seq<(u32, u64)>, InputError>(e),
        },
{
    let spans = token_spans(dimensions);
    let ghost ts = tokens(dimensions@);
    let mut dims: Vec<u32> = Vec::new();
    let mut k: usize = 0;
    while k < spans.len()
        invariant
            k <= spans.len(),
            ts == tokens(dimensions@),
            spans.len() == ts.len(),
            forall|i: int| 0 <= i < spans.len() ==> (#[trigger] spans[i]).0 <= spans[i].1 <= dimensions.len(),
            forall|i: int| 0 <= i < spans.len() ==> dimensions@.subrange((#[trigger] spans[i]).0 as int, spans[i].1 as int)
                == ts[i],
            dims.len() == k,
            forall|i: int| 0 <= i < k ==> dimension_of(#[trigger] ts[i]) == Some(dims[i]),
        decreases spans.len() - k,
    {
        let span = spans[k];
        let token = slice_subrange(dimensions, span.0, span.1);
        assert(token@ == ts[k as int]);
        match parse_dimension(token) {
            Some(d) => {
                dims.push(d);
            },
            None => {
                assert(dimension_of(ts[k as int]) is None);
                return Err(InputError::BadDimension);
            },
        }
        k += 1;
    }
    if dims.len() != weights.len() {
        return Err(InputError::LengthMismatch);
    }
    let mut v: SparseVector = Vec::new();
    let mut j: usize = 0;
    while j < dims.len()
        invariant
            j <= dims.len(),
            dims.len() == weights.len(),
            v.len() == j,
            forall|i: int| 0 <= i < j ==> #[trigger] v[i] == (dims[i], weights[i]),
        decreases dims.len() - j,
    {
        v.push((dims[j], weights[j]));
        j += 1;
    }
    proof {
        assert(v@ =~= Seq::new(ts.len(), |k: int| (dimension_of(ts[k])->0, weights@[k])));
    }
    Ok(v)
}

} // verus!
