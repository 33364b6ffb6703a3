use vstd::prelude::*;

use crate::index::{has_id, upsert, without, Entries, Index};

verus! {

/// Why a request was refused.
#[derive(Clone, Copy, Debug, PartialEq, Eq, Structural)]
pub enum ApiError {
    /// The identifier in the path is not a decimal number that fits 64 bits.
    MalformedId,
    /// The durable store could not carry out the write or delete.
    Persistence,
    /// A delete named an identifier that holds no record.
    NotFound,
}

/// The durable store reported that a write or delete did not happen.
#[derive(Clone, Copy, Debug, PartialEq, Eq, Structural)]
pub struct StoreFailure;

/// A change to the record set.
pub enum Mutation {
    Insert { id: u64, signature: Vec<u8> },
    Delete { id: u64 },
}

impl Mutation {
    pub open spec fn target(&self) -> u64 {
        match self {
            Mutation::Insert { id, .. } => *id,
            Mutation::Delete { id } => *id,
        }
    }

    /// Identifier the mutation is about.
    pub fn id(&self) -> (r: u64)
        ensures
            r == self.target(),
    {
        match self {
            Mutation::Insert { id, .. } => *id,
            Mutation::Delete { id } => *id,
        }
    }
}

/// The entries once `m` has been applied to `s`.
pub open spec fn applied(s: Entries, m: Mutation) -> Entries {
    match m {
        Mutation::Insert { id, signature } => upsert(s, id, signature@),
        Mutation::Delete { id } => without(s, id),
    }
}

/// Whether `m` is refused before the durable store is touched.
pub open spec fn refused(s: Entries, m: Mutation) -> bool {
    m is Delete && !has_id(s, m.target())
}

pub open spec fn is_digit(b: u8) -> bool {
    48 <= b <= 57
}

/// The number written in decimal by the digits `s`.
pub open spec fn decimal_value(s: Seq<u8>) -> nat
    decreases s.len(),
{
    if s.len() == 0 {
        0
    } else {
        decimal_value(s.drop_last()) * 10 + (s.last() - 48) as nat
    }
}

/// A well-formed identifier: one or more decimal digits whose value fits 64 bits.
pub open spec fn is_well_formed_id(s: Seq<u8>) -> bool {
    &&& s.len() > 0
    &&& forall|i: int| 0 <= i < s.len() ==> is_digit(#[trigger] s[i])
    &&& decimal_value(s) <= u64::MAX
}

proof fn lemma_decimal_grows(s: Seq<u8>, i: int, j: int)
    requires
        0 <= i <= j <= s.len(),
        forall|k: int| 0 <= k < s.len() ==> is_digit(#[trigger] s[k]),
    ensures
        decimal_value(s.take(i)) <= decimal_value(s.take(j)),
    decreases j - i,
{
    if i < j {
        lemma_decimal_grows(s, i, j - 1);
        assert(s.take(j).drop_last() =~= s.take(j - 1));
    }
}

/// Reads an image identifier from the bytes of a path segment.
pub fn parse_id(text: &[u8]) -> (r: Result<u64, ApiError>)
    ensures
        match r {
            Ok(v) => is_well_formed_id(text@) && v == decimal_value(text@),
            Err(e) => !is_well_formed_id(text@) && e == ApiError::MalformedId,
        },
{
    if text.len() == 0 {
        return Err(ApiError::MalformedId);
    }
    let mut v: u64 = 0;
    let mut i: usize = 0;
    while i < text.len()
        invariant
            i <= text@.len(),
            forall|k: int| 0 <= k < i ==> is_digit(#[trigger] text@[k]),
            v == decimal_value(text@.take(i as int)),
        decreases text.len() - i,
    {
        let b = text[i];
        if b < 48 || b > 57 {
            return Err(ApiError::MalformedId);
        }
        let d = (b - 48) as u64;
        assert(text@.take(i + 1).drop_last() =~= text@.take(i as int));
        if v > (u64::MAX - d) / 10 {
            proof {
                assert(decimal_value(text@.take(i + 1)) > u64::MAX);
                if forall|k: int| 0 <= k < text@.len() ==> is_digit(#[trigger] text@[k]) {
                    lemma_decimal_grows(text@, i + 1, text@.len() as int);
                    assert(text@.take(text@.len() as int) =~= text@);
                }
            }
            return Err(ApiError::MalformedId);
        }
        v = v * 10 + d;
        i = i + 1;
    }
    assert(text@.take(i as int) =~= text@);
    Ok(v)
}

/// Decides, under the durable store's lock, whether `m` may go to the store: a
/// delete of an identifier that holds no record is refused with `NotFound`.
pub fn precheck(index: &Index, m: &Mutation) -> (r: Result<(), ApiError>)
    ensures
        r is Err <==> refused(index@, *m),
        r is Err ==> r == Err::<(), ApiError>(ApiError::NotFound),
{
    match m {
        Mutation::Insert { .. } => Ok(()),
        Mutation::Delete { id } => {
            if index.contains(*id) {
                Ok(())
            } else {
                Err(ApiError::NotFound)
            }
        },
    }
}

/// Completes a mutation once the durable store has answered `stored`: a failed
/// store leaves the index as it was; a committed one is applied to the index whole.
pub fn commit(index: &mut Index, m: Mutation, stored: Result<(), StoreFailure>) -> (r: Result<
    (),
    ApiError,
>)
    requires
        old(index).wf(),
    ensures
        final(index).wf(),
        stored is Err ==> r == Err::<(), ApiError>(ApiError::Persistence) && final(index)@ == old(
            index,
        )@,
        stored is Ok && refused(old(index)@, m) ==> r == Err::<(), ApiError>(ApiError::NotFound)
            && final(index)@ == old(index)@,
        stored is Ok && !refused(old(index)@, m) ==> r is Ok && final(index)@ == applied(
            old(index)@,
            m,
        ),
        final(index)@ == old(index)@ || final(index)@ == applied(old(index)@, m),
{
    if stored.is_err() {
        return Err(ApiError::Persistence);
    }
    match m {
        Mutation::Insert { id, signature } => {
            index.insert(id, signature);
            Ok(())
        },
        Mutation::Delete { id } => {
            if index.remove(id) {
                Ok(())
            } else {
                Err(ApiError::NotFound)
            }
        },
    }
}

} // verus!
