//! Duplicate-filename handling for unpacking.
//!
//! A duplicate name is disambiguated deterministically: the occurrence
//! count of each name is tracked in decode order, and from the second
//! occurrence on, the name gets a `-k` suffix where `k` is the occurrence
//! number — `-2` for the second occurrence, `-3` for the third, and so on.
//! The first occurrence keeps the plain name, so there is never a `-1`
//! suffix: a reproduced quirk of the format's ecosystem, kept on purpose.

use vstd::prelude::*;

verus! {

/// How many of the first `i` names equal `x`.
pub open spec fn occurrences(names: Seq<Seq<u8>>, x: Seq<u8>, i: int) -> int
    decreases i,
{
    if i <= 0 {
        0
    } else {
        occurrences(names, x, i - 1) + if names[i - 1] == x {
            1int
        } else {
            0int
        }
    }
}

/// The decimal digits of `n`.
pub open spec fn dec_digits(n: int) -> Seq<u8>
    decreases n,
{
    if n < 10 {
        seq![(48 + n) as u8]
    } else {
        dec_digits(n / 10).push((48 + n % 10) as u8)
    }
}

/// The name reported for a duplicate that `k` earlier entries already
/// used: unchanged when it is the first of its kind, else suffixed with
/// `-` and the occurrence number `k + 1`.
pub open spec fn disambiguated(name: Seq<u8>, k: int) -> Seq<u8> {
    if k == 0 {
        name
    } else {
        name + seq![45u8] + dec_digits(k + 1)
    }
}

/// Whether two byte strings hold the same bytes.
fn bytes_eq(a: &Vec<u8>, b: &Vec<u8>) -> (r: bool)
    ensures
        r == (a@ == b@),
{
    if a.len() != b.len() {
        return false;
    }
    let mut i: usize = 0;
    while i < a.len()
        invariant
            i <= a@.len(),
            a@.len() == b@.len(),
            forall|k: int| 0 <= k < i as int ==> a@[k] == b@[k],
        decreases a@.len() - i,
    {
        if a[i] != b[i] {
            return false;
        }
        i = i + 1;
    }
    proof {
        assert(a@ =~= b@);
    }
    true
}

/// Append the decimal digits of `v` to `out`.
fn push_decimal(out: &mut Vec<u8>, v: u64)
    ensures
        final(out)@ == old(out)@ + dec_digits(v as int),
    decreases v,
{
    if v < 10 {
        out.push(48 + v as u8);
        proof {
            assert(out@ =~= old(out)@ + dec_digits(v as int));
        }
    } else {
        push_decimal(out, v / 10);
        out.push(48 + (v % 10) as u8);
        proof {
            assert(out@ =~= old(out)@ + dec_digits(v as int));
        }
    }
}

/// The byte strings a sequence of name vectors holds.
pub open spec fn name_views(s: Seq<Vec<u8>>) -> Seq<Seq<u8>> {
    s.map_values(|v: Vec<u8>| v@)
}

/// Disambiguate a list of decoded names, in order: every repeated name
/// gets the `-2`, `-3`, … suffix of its occurrence number, while first
/// occurrences stay as they are.
pub fn disambiguate_names(names: &Vec<Vec<u8>>) -> (r: Vec<Vec<u8>>)
    ensures
        r@.len() == names@.len(),
        forall|i: int|
            #![trigger r@[i]]
            0 <= i < names@.len() ==> r@[i]@ == disambiguated(
                names@[i]@,
                occurrences(name_views(names@), names@[i]@, i),
            ),
{
    let n: usize = names.len();
    let mut r: Vec<Vec<u8>> = Vec::new();
    let mut i: usize = 0;
    while i < n
        invariant
            i <= n,
            n == names@.len(),
            r@.len() == i as int,
            forall|q: int|
                #![trigger r@[q]]
                0 <= q < i as int ==> r@[q]@ == disambiguated(
                    names@[q]@,
                    occurrences(name_views(names@), names@[q]@, q),
                ),
        decreases n - i,
    {
        // count earlier occurrences of this name
        let mut k: u64 = 0;
        let mut j: usize = 0;
        while j < i
            invariant
                j <= i < n,
                n == names@.len(),
                k as int == occurrences(name_views(names@), names@[i as int]@, j as int),
                k as int <= j as int,
            decreases i - j,
        {
            if bytes_eq(&names[j], &names[i]) {
                k = k + 1;
            }
            j = j + 1;
        }

        let mut out: Vec<u8> = Vec::new();
        crate::bytes::push_bytes(&mut out, names[i].as_slice());
        if k > 0 {
            out.push(45u8);
            push_decimal(&mut out, k + 1);
        }
        proof {
            assert(out@ == disambiguated(
                names@[i as int]@,
                occurrences(name_views(names@), names@[i as int]@, i as int),
            ));
        }
        r.push(out);
        i = i + 1;
    }
    r
}

} // verus!
