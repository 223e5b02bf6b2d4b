use vstd::prelude::*;

verus! {

/// The ASCII code of the digit zero.
pub const ZERO: u8 = 48;

/// The ASCII code of the digit nine.
pub const NINE: u8 = 57;

/// Failure raised while writing a value out, with a description.
#[derive(Debug)]
pub struct StorableStoreError(pub String);

/// Failure raised while reading a value back, with a description.
#[derive(Debug)]
pub struct StorableRestoreError(pub String);

/// A value that can write itself out as bytes and be read back from them.
///
/// `stored` and `restored` are the mathematical meaning of the two operations:
/// `None` stands for a failure.
pub trait Storable: Sized {
    /// The bytes that `store` produces for this value, or `None` if it fails.
    spec fn stored(&self) -> Option<Seq<u8>>;

    /// The value that `restore` reads from `bytes`, or `None` if it fails.
    spec fn restored(bytes: Seq<u8>) -> Option<Self>;

    /// Reads a value from the full contents of a file.
    fn restore(reader: &[u8]) -> (r: Result<Self, StorableRestoreError>)
        ensures
            match r {
                Ok(v) => Self::restored(reader@) == Some(v),
                Err(_) => Self::restored(reader@) is None,
            },
    ;

    /// Writes this value out as the full contents of a file.
    fn store(&self) -> (r: Result<Vec<u8>, StorableStoreError>)
        ensures
            match r {
                Ok(b) => self.stored() == Some(b@),
                Err(_) => self.stored() is None,
            },
    ;
}

/// Reading back what was written gives the value that was written.
pub open spec fn round_trips<T: Storable>() -> bool {
    forall|x: T| #[trigger] x.stored() is Some ==> T::restored(x.stored()->0) == Some(x)
}

pub open spec fn is_digit(c: u8) -> bool {
    ZERO <= c <= NINE
}

/// The decimal digits of `n`, most significant first, without leading zeros.
pub open spec fn decimal_of(n: nat) -> Seq<u8>
    decreases n,
{
    if n < 10 {
        seq![(ZERO + n) as u8]
    } else {
        decimal_of(n / 10).push((ZERO + n % 10) as u8)
    }
}

/// The number that a string of decimal digits denotes.
pub open spec fn value_of(s: Seq<u8>) -> nat
    decreases s.len(),
{
    if s.len() == 0 {
        0
    } else {
        value_of(s.drop_last()) * 10 + (s.last() - ZERO) as nat
    }
}

pub open spec fn all_digits(s: Seq<u8>) -> bool {
    forall|i: int| 0 <= i < s.len() ==> is_digit(#[trigger] s[i])
}

proof fn lemma_decimal_of(n: nat)
    ensures
        decimal_of(n).len() > 0,
        all_digits(decimal_of(n)),
        value_of(decimal_of(n)) == n,
    decreases n,
{
    if n >= 10 {
        lemma_decimal_of(n / 10);
        let s = decimal_of(n);
        assert(s.drop_last() =~= decimal_of(n / 10));
        assert forall|i: int| 0 <= i < s.len() implies is_digit(#[trigger] s[i]) by {
            if i < s.len() - 1 {
                assert(s[i] == decimal_of(n / 10)[i]);
            }
        }
        assert(s.last() == (ZERO + n % 10) as u8);
        assert(n == (n / 10) * 10 + n % 10);
        assert(value_of(s) == value_of(s.drop_last()) * 10 + (s.last() - ZERO) as nat);
    } else {
        let s = decimal_of(n);
        assert(s.drop_last() =~= Seq::<u8>::empty());
        assert(value_of(s.drop_last()) == 0);
        assert(s.last() == (ZERO + n) as u8);
        assert(value_of(s) == value_of(s.drop_last()) * 10 + (s.last() - ZERO) as nat);
    }
}

proof fn lemma_value_grows(s: Seq<u8>, i: int)
    requires
        all_digits(s),
        0 <= i <= s.len(),
    ensures
        value_of(s.take(i)) <= value_of(s),
    decreases s.len() - i,
{
    if i < s.len() {
        lemma_value_grows(s, i + 1);
        assert(s.take(i + 1).drop_last() =~= s.take(i));
        assert(is_digit(s[i]));
    } else {
        assert(s.take(i) =~= s);
    }
}

/// A 32-bit integer is stored as its decimal digits.
impl Storable for u32 {
    open spec fn stored(&self) -> Option<Seq<u8>> {
        Some(decimal_of(*self as nat))
    }

    open spec fn restored(bytes: Seq<u8>) -> Option<u32> {
        if bytes.len() > 0 && all_digits(bytes) && value_of(bytes) <= u32::MAX {
            Some(value_of(bytes) as u32)
        } else {
            None
        }
    }

    fn restore(reader: &[u8]) -> (r: Result<u32, StorableRestoreError>) {
        if reader.len() == 0 {
            return Err(StorableRestoreError("empty number".to_string()));
        }
        let mut acc: u64 = 0;
        let mut i: usize = 0;
        while i < reader.len()
            invariant
                i <= reader@.len(),
                all_digits(reader@.take(i as int)),
                acc == value_of(reader@.take(i as int)),
                acc <= u32::MAX,
            decreases reader@.len() - i,
        {
            let c = reader[i];
            if !(ZERO <= c && c <= NINE) {
                return Err(StorableRestoreError("not a decimal digit".to_string()));
            }
            proof {
                assert(reader@.take(i + 1).drop_last() =~= reader@.take(i as int));
            }
            acc = acc * 10 + (c - ZERO) as u64;
            i = i + 1;
            if acc > u32::MAX as u64 {
                proof {
                    if all_digits(reader@) {
                        lemma_value_grows(reader@, i as int);
                    }
                }
                return Err(StorableRestoreError("number too large".to_string()));
            }
        }
        proof {
            assert(reader@.take(i as int) =~= reader@);
        }
        Ok(acc as u32)
    }

    fn store(&self) -> (r: Result<Vec<u8>, StorableStoreError>) {
        let mut m: u32 = *self;
        let mut tail: Vec<u8> = Vec::new();
        while m >= 10
            invariant
                decimal_of(*self as nat) == decimal_of(m as nat) + tail@,
            decreases m,
        {
            let d: u8 = (m % 10) as u8;
            proof {
                assert(decimal_of(m as nat) == decimal_of((m / 10) as nat).push((ZERO + d) as u8));
            }
            let ghost old_tail = tail@;
            tail.insert(0, ZERO + d);
            proof {
                assert(decimal_of((m / 10) as nat).push((ZERO + d) as u8) + old_tail
                    =~= decimal_of((m / 10) as nat) + tail@);
            }
            m = m / 10;
        }
        let mut out: Vec<u8> = Vec::new();
        out.push(ZERO + m as u8);
        out.append(&mut tail);
        proof {
            assert(decimal_of(m as nat) =~= seq![(ZERO + m) as u8]);
        }
        Ok(out)
    }
}

/// Every 32-bit integer reads back as itself.
pub proof fn lemma_u32_round_trips()
    ensures
        round_trips::<u32>(),
{
    assert forall|x: u32| #[trigger] x.stored() is Some implies u32::restored(x.stored()->0)
        == Some(x) by {
        lemma_decimal_of(x as nat);
    }
}

} // verus!
