//! Equality of values: two values are equal where they stand for the same
//! tree, so the entries of two equal dictionaries agree in content and in
//! order.

use vstd::prelude::*;
use vstd::std_specs::cmp::PartialEqSpecImpl;
use crate::bencode::{views, BencodeValue, Dict};

verus! {

/// Whether `a` and `b` hold the same bytes.
pub fn same_bytes(a: &[u8], b: &[u8]) -> (r: bool)
    ensures
        r == (a@ == b@),
{
    if a.len() != b.len() {
        return false;
    }
    let mut i: usize = 0;
    while i < a.len()
        invariant
            0 <= i <= a.len(),
            a@.len() == b@.len(),
            a@.take(i as int) == b@.take(i as int),
        decreases a.len() - i,
    {
        if a[i] != b[i] {
            return false;
        }
        i += 1;
        assert(a@.take(i as int) == a@.take(i - 1).push(a@[i - 1]));
        assert(b@.take(i as int) == b@.take(i - 1).push(b@[i - 1]));
    }
    assert(a@.take(a.len() as int) == a@);
    assert(b@.take(b.len() as int) == b@);
    true
}

/// Whether `a` and `b` stand for the same tree.
pub fn same_value(a: &BencodeValue, b: &BencodeValue) -> (r: bool)
    ensures
        r == (a@ == b@),
    decreases a,
{
    match (a, b) {
        (BencodeValue::Integer(x), BencodeValue::Integer(y)) => *x == *y,
        (BencodeValue::ByteString(x), BencodeValue::ByteString(y)) => same_bytes(*x, *y),
        (BencodeValue::List(xs), BencodeValue::List(ys)) => {
            if xs.len() != ys.len() {
                assert(views(xs@).len() != views(ys@).len());
                return false;
            }
            let mut i: usize = 0;
            while i < xs.len()
                invariant
                    0 <= i <= xs.len(),
                    xs.len() == ys.len(),
                    *a == BencodeValue::List(*xs),
                    *b == BencodeValue::List(*ys),
                    views(xs@).take(i as int) == views(ys@).take(i as int),
                decreases xs.len() - i,
            {
                proof {
                    assert(decreases_to!(*a => a->List_0));
                    assert(decreases_to!(*xs => xs@));
                    assert(decreases_to!(xs@ => xs@[i as int]));
                }
                if !same_value(&xs[i], &ys[i]) {
                    assert(views(xs@)[i as int] != views(ys@)[i as int]);
                    return false;
                }
                i += 1;
                assert(views(xs@).take(i as int) == views(xs@).take(i - 1).push(
                    views(xs@)[i - 1],
                ));
                assert(views(ys@).take(i as int) == views(ys@).take(i - 1).push(
                    views(ys@)[i - 1],
                ));
            }
            assert(views(xs@).take(xs.len() as int) == views(xs@));
            assert(views(ys@).take(ys.len() as int) == views(ys@));
            true
        },
        (BencodeValue::Dict(x), BencodeValue::Dict(y)) => {
            proof {
                assert(decreases_to!(*a => a->Dict_0));
            }
            same_dict(x, y)
        },
        _ => false,
    }
}

/// Whether `a` and `b` hold the same entries in the same order.
pub fn same_dict(a: &Dict, b: &Dict) -> (r: bool)
    ensures
        r == (a@ == b@),
    decreases a,
{
    let n = a.len();
    if n != b.len() {
        return false;
    }
    let mut i: usize = 0;
    while i < n
        invariant
            0 <= i <= n,
            n == a@.len(),
            n == b@.len(),
            a@.take(i as int) == b@.take(i as int),
        decreases n - i,
    {
        if !same_bytes(a.key_at(i), b.key_at(i)) {
            assert(a@[i as int] != b@[i as int]);
            return false;
        }
        if !same_value(a.value_at(i), b.value_at(i)) {
            assert(a@[i as int] != b@[i as int]);
            return false;
        }
        i += 1;
        assert(a@.take(i as int) == a@.take(i - 1).push(a@[i - 1]));
        assert(b@.take(i as int) == b@.take(i - 1).push(b@[i - 1]));
    }
    assert(a@.take(n as int) == a@);
    assert(b@.take(n as int) == b@);
    true
}

impl<'a> PartialEq for BencodeValue<'a> {
    fn eq(&self, other: &Self) -> (r: bool) {
        same_value(self, other)
    }
}

impl<'a> PartialEqSpecImpl for BencodeValue<'a> {
    open spec fn obeys_eq_spec() -> bool {
        true
    }

    open spec fn eq_spec(&self, other: &Self) -> bool {
        self@ == other@
    }
}

impl<'a> PartialEq for Dict<'a> {
    fn eq(&self, other: &Self) -> (r: bool) {
        same_dict(self, other)
    }
}

impl<'a> PartialEqSpecImpl for Dict<'a> {
    open spec fn obeys_eq_spec() -> bool {
        true
    }

    open spec fn eq_spec(&self, other: &Self) -> bool {
        self@ == other@
    }
}

} // verus!
