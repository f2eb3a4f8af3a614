//! Range endpoints over keys, their byte-level form, and the specification
//! of which entries a bounded range selects.

use vstd::prelude::*;

use crate::bytes::{
    bytes_le, bytes_lt, lemma_lex_le_lt_trans, lemma_lex_le_trans, lemma_lex_lt_le_trans, lex_le,
    lex_lt,
};
use crate::errors::{Error, Result};
use crate::traits::BytesEncode;
use crate::tree::Tree;

verus! {

/// A range endpoint over a codec's item type, as a caller states it.
pub enum TypedBound<'a, T: ?Sized> {
    Included(&'a T),
    Excluded(&'a T),
    Unbounded,
}

/// A range endpoint over encoded keys.
pub enum ByteBound {
    Included(Vec<u8>),
    Excluded(Vec<u8>),
    Unbounded,
}

/// A range endpoint at the specification level.
pub enum SpecBound {
    Included(Seq<u8>),
    Excluded(Seq<u8>),
    Unbounded,
}

impl View for ByteBound {
    type V = SpecBound;

    open spec fn view(&self) -> SpecBound {
        match self {
            ByteBound::Included(k) => SpecBound::Included(k@),
            ByteBound::Excluded(k) => SpecBound::Excluded(k@),
            ByteBound::Unbounded => SpecBound::Unbounded,
        }
    }
}

/// Whether key `k` lies at or above the lower endpoint `b`.
pub open spec fn lo_ok(b: SpecBound, k: Seq<u8>) -> bool {
    match b {
        SpecBound::Included(s) => lex_le(s, k),
        SpecBound::Excluded(s) => lex_lt(s, k),
        SpecBound::Unbounded => true,
    }
}

/// Whether key `k` lies at or below the upper endpoint `b`.
pub open spec fn hi_ok(b: SpecBound, k: Seq<u8>) -> bool {
    match b {
        SpecBound::Included(s) => lex_le(k, s),
        SpecBound::Excluded(s) => lex_lt(k, s),
        SpecBound::Unbounded => true,
    }
}

/// Whether key `k` lies within both endpoints.
pub open spec fn in_range(lo: SpecBound, hi: SpecBound, k: Seq<u8>) -> bool {
    lo_ok(lo, k) && hi_ok(hi, k)
}

/// The subsequence of `s` whose keys lie within the bounds, in order.
pub open spec fn range_filter(s: Seq<(Seq<u8>, Seq<u8>)>, lo: SpecBound, hi: SpecBound) -> Seq<
    (Seq<u8>, Seq<u8>),
>
    decreases s.len(),
{
    if s.len() == 0 {
        Seq::empty()
    } else if in_range(lo, hi, s[0].0) {
        seq![s[0]] + range_filter(s.skip(1), lo, hi)
    } else {
        range_filter(s.skip(1), lo, hi)
    }
}

/// A key at or below one in range still satisfies the upper endpoint.
pub proof fn lemma_hi_down(b: SpecBound, k1: Seq<u8>, k2: Seq<u8>)
    requires
        hi_ok(b, k2),
        lex_le(k1, k2),
    ensures
        hi_ok(b, k1),
{
    match b {
        SpecBound::Included(s) => {
            lemma_lex_le_trans(k1, k2, s);
        },
        SpecBound::Excluded(s) => {
            lemma_lex_le_lt_trans(k1, k2, s);
        },
        SpecBound::Unbounded => {},
    }
}

/// A key at or above one in range still satisfies the lower endpoint.
pub proof fn lemma_lo_up(b: SpecBound, k1: Seq<u8>, k2: Seq<u8>)
    requires
        lo_ok(b, k1),
        lex_le(k1, k2),
    ensures
        lo_ok(b, k2),
{
    match b {
        SpecBound::Included(s) => {
            lemma_lex_le_trans(s, k1, k2);
        },
        SpecBound::Excluded(s) => {
            lemma_lex_lt_le_trans(s, k1, k2);
        },
        SpecBound::Unbounded => {},
    }
}

/// Appending one pair to a sequence extends its filtered form by that pair
/// exactly when the pair's key is in range.
pub proof fn lemma_filter_snoc(s: Seq<(Seq<u8>, Seq<u8>)>, lo: SpecBound, hi: SpecBound, x: (
    Seq<u8>,
    Seq<u8>,
))
    ensures
        range_filter(s.push(x), lo, hi) == if in_range(lo, hi, x.0) {
            range_filter(s, lo, hi).push(x)
        } else {
            range_filter(s, lo, hi)
        },
    decreases s.len(),
{
    let sx = s.push(x);
    if s.len() == 0 {
        assert(sx.len() == 1);
        assert(sx[0] == x);
        assert(sx.skip(1) =~= Seq::<(Seq<u8>, Seq<u8>)>::empty());
        assert(range_filter(sx.skip(1), lo, hi) =~= Seq::<(Seq<u8>, Seq<u8>)>::empty());
        assert(range_filter(s, lo, hi) =~= Seq::<(Seq<u8>, Seq<u8>)>::empty());
        if in_range(lo, hi, x.0) {
            assert(range_filter(sx, lo, hi) == seq![sx[0]] + range_filter(sx.skip(1), lo, hi));
            assert(range_filter(sx, lo, hi) =~= range_filter(s, lo, hi).push(x));
        } else {
            assert(range_filter(sx, lo, hi) == range_filter(sx.skip(1), lo, hi));
        }
    } else {
        assert(sx[0] == s[0]);
        assert(sx.skip(1) =~= s.skip(1).push(x));
        lemma_filter_snoc(s.skip(1), lo, hi, x);
        if in_range(lo, hi, x.0) {
            if in_range(lo, hi, s[0].0) {
                assert(range_filter(sx, lo, hi) =~= range_filter(s, lo, hi).push(x));
            }
        }
    }
}

/// A sequence with no key in range filters to nothing.
pub proof fn lemma_filter_all_out(s: Seq<(Seq<u8>, Seq<u8>)>, lo: SpecBound, hi: SpecBound)
    requires
        forall|j: int| 0 <= j < s.len() ==> !in_range(lo, hi, s[j].0),
    ensures
        range_filter(s, lo, hi) == Seq::<(Seq<u8>, Seq<u8>)>::empty(),
    decreases s.len(),
{
    if s.len() > 0 {
        assert(forall|j: int| 0 <= j < s.skip(1).len() ==> s.skip(1)[j] == s[j + 1]);
        lemma_filter_all_out(s.skip(1), lo, hi);
    }
}

/// Filtering distributes over concatenation.
pub proof fn lemma_filter_concat(a: Seq<(Seq<u8>, Seq<u8>)>, b: Seq<(Seq<u8>, Seq<u8>)>, lo:
    SpecBound, hi: SpecBound)
    ensures
        range_filter(a + b, lo, hi) == range_filter(a, lo, hi) + range_filter(b, lo, hi),
    decreases a.len(),
{
    if a.len() == 0 {
        assert(a + b =~= b);
        assert(range_filter(a, lo, hi) + range_filter(b, lo, hi) =~= range_filter(b, lo, hi));
    } else {
        assert((a + b)[0] == a[0]);
        assert((a + b).skip(1) =~= a.skip(1) + b);
        lemma_filter_concat(a.skip(1), b, lo, hi);
        if in_range(lo, hi, a[0].0) {
            assert(seq![a[0]] + (range_filter(a.skip(1), lo, hi) + range_filter(b, lo, hi)) =~= (
            seq![a[0]] + range_filter(a.skip(1), lo, hi)) + range_filter(b, lo, hi));
        }
    }
}

/// A key appears in the filtered form exactly when it appears in the
/// sequence and lies in range.
pub proof fn lemma_filter_member(s: Seq<(Seq<u8>, Seq<u8>)>, lo: SpecBound, hi: SpecBound, q: Seq<
    u8,
>)
    ensures
        (exists|j: int|
            0 <= j < range_filter(s, lo, hi).len() && range_filter(s, lo, hi)[j].0 == q) <==> (
        exists|j: int| 0 <= j < s.len() && s[j].0 == q && in_range(lo, hi, q)),
    decreases s.len(),
{
    let f = range_filter(s, lo, hi);
    if s.len() == 0 {
    } else {
        lemma_filter_member(s.skip(1), lo, hi, q);
        let fr = range_filter(s.skip(1), lo, hi);
        if in_range(lo, hi, s[0].0) {
            assert(f == seq![s[0]] + fr);
            assert(f[0] == s[0]);
            if exists|j: int| 0 <= j < f.len() && f[j].0 == q {
                let j = choose|j: int| 0 <= j < f.len() && f[j].0 == q;
                if j == 0 {
                    assert(s[0].0 == q && in_range(lo, hi, q));
                } else {
                    assert(fr[j - 1].0 == q);
                    let w = choose|w: int| 0 <= w < s.skip(1).len() && s.skip(1)[w].0 == q
                        && in_range(lo, hi, q);
                    assert(s[w + 1].0 == q);
                }
            }
            if exists|j: int| 0 <= j < s.len() && s[j].0 == q && in_range(lo, hi, q) {
                let j = choose|j: int| 0 <= j < s.len() && s[j].0 == q && in_range(lo, hi, q);
                if j == 0 {
                    assert(f[0].0 == q);
                } else {
                    assert(s.skip(1)[j - 1].0 == q);
                    let w = choose|w: int| 0 <= w < fr.len() && fr[w].0 == q;
                    assert(f[w + 1].0 == q);
                }
            }
        } else {
            assert(f == fr);
            if exists|j: int| 0 <= j < f.len() && f[j].0 == q {
                let w = choose|w: int| 0 <= w < s.skip(1).len() && s.skip(1)[w].0 == q && in_range(
                    lo,
                    hi,
                    q,
                );
                assert(s[w + 1].0 == q);
            }
            if exists|j: int| 0 <= j < s.len() && s[j].0 == q && in_range(lo, hi, q) {
                let j = choose|j: int| 0 <= j < s.len() && s[j].0 == q && in_range(lo, hi, q);
                assert(j != 0);
                assert(s.skip(1)[j - 1].0 == q);
            }
        }
    }
}

/// Every entry of the filtered form comes from the sequence itself.
pub proof fn lemma_filter_elem(s: Seq<(Seq<u8>, Seq<u8>)>, lo: SpecBound, hi: SpecBound, i: int)
    requires
        0 <= i < range_filter(s, lo, hi).len(),
    ensures
        exists|j: int|
            0 <= j < s.len() && s[j] == range_filter(s, lo, hi)[i] && in_range(
                lo,
                hi,
                range_filter(s, lo, hi)[i].0,
            ),
    decreases s.len(),
{
    let f = range_filter(s, lo, hi);
    let fr = range_filter(s.skip(1), lo, hi);
    if in_range(lo, hi, s[0].0) {
        assert(f == seq![s[0]] + fr);
        if i == 0 {
            assert(s[0] == f[0]);
        } else {
            lemma_filter_elem(s.skip(1), lo, hi, i - 1);
            let w = choose|j: int|
                0 <= j < s.skip(1).len() && s.skip(1)[j] == fr[i - 1] && in_range(
                    lo,
                    hi,
                    fr[i - 1].0,
                );
            assert(s[w + 1] == f[i]);
        }
    } else {
        assert(f == fr);
        lemma_filter_elem(s.skip(1), lo, hi, i);
        let w = choose|j: int|
            0 <= j < s.skip(1).len() && s.skip(1)[j] == fr[i] && in_range(lo, hi, fr[i].0);
        assert(s[w + 1] == f[i]);
    }
}

/// Filtering a sequence of entries sorted strictly ascending by key yields
/// entries sorted strictly ascending by key: a range iterator hands entries
/// out in ascending byte order, and its reverse walks the exact reverse.
pub proof fn lemma_range_filter_sorted(s: Seq<(Seq<u8>, Seq<u8>)>, lo: SpecBound, hi: SpecBound)
    requires
        forall|i: int, j: int| 0 <= i < j < s.len() ==> lex_lt(#[trigger] s[i].0, #[trigger] s[j].0),
    ensures
        ({
            let f = range_filter(s, lo, hi);
            forall|i: int, j: int| 0 <= i < j < f.len() ==> lex_lt(#[trigger] f[i].0, #[trigger] f[j].0)
        }),
    decreases s.len(),
{
    let f = range_filter(s, lo, hi);
    if s.len() > 0 {
        let fr = range_filter(s.skip(1), lo, hi);
        assert(forall|i: int, j: int|
            0 <= i < j < s.skip(1).len() ==> lex_lt(
                #[trigger] s.skip(1)[i].0,
                #[trigger] s.skip(1)[j].0,
            ));
        lemma_range_filter_sorted(s.skip(1), lo, hi);
        if in_range(lo, hi, s[0].0) {
            assert(f == seq![s[0]] + fr);
            assert forall|i: int, j: int| 0 <= i < j < f.len() implies lex_lt(
                #[trigger] f[i].0,
                #[trigger] f[j].0,
            ) by {
                if i == 0 {
                    lemma_filter_elem(s.skip(1), lo, hi, j - 1);
                    let w = choose|m: int|
                        0 <= m < s.skip(1).len() && s.skip(1)[m] == fr[j - 1] && in_range(
                            lo,
                            hi,
                            fr[j - 1].0,
                        );
                    assert(lex_lt(s[0].0, s[w + 1].0));
                    assert(f[j] == fr[j - 1]);
                } else {
                    assert(lex_lt(fr[i - 1].0, fr[j - 1].0));
                }
            }
        } else {
            assert(f == fr);
        }
    }
}

/// Whether `k` satisfies the lower endpoint, decided at run time.
pub fn lo_ok_exec(b: &ByteBound, k: &[u8]) -> (r: bool)
    ensures
        r == lo_ok(b@, k@),
{
    match b {
        ByteBound::Included(s) => bytes_le(s.as_slice(), k),
        ByteBound::Excluded(s) => bytes_lt(s.as_slice(), k),
        ByteBound::Unbounded => true,
    }
}

/// Whether `k` satisfies the upper endpoint, decided at run time.
pub fn hi_ok_exec(b: &ByteBound, k: &[u8]) -> (r: bool)
    ensures
        r == hi_ok(b@, k@),
{
    match b {
        ByteBound::Included(s) => bytes_le(k, s.as_slice()),
        ByteBound::Excluded(s) => bytes_lt(k, s.as_slice()),
        ByteBound::Unbounded => true,
    }
}

/// Encode a typed endpoint through the key codec.
pub fn encode_bound<'a, KC: BytesEncode>(b: &TypedBound<'a, KC::EItem>) -> (r: Result<ByteBound>)
    ensures
        match r {
            Ok(bb) => match b {
                TypedBound::Included(x) => KC::obeys_encode() ==> KC::spec_encode(x@) is Some && bb@
                    == SpecBound::Included(KC::spec_encode(x@).unwrap()),
                TypedBound::Excluded(x) => KC::obeys_encode() ==> KC::spec_encode(x@) is Some && bb@
                    == SpecBound::Excluded(KC::spec_encode(x@).unwrap()),
                TypedBound::Unbounded => bb@ == SpecBound::Unbounded,
            },
            Err(e) => e == Error::Encoding && (KC::obeys_encode() ==> match b {
                TypedBound::Included(x) => KC::spec_encode(x@) is None,
                TypedBound::Excluded(x) => KC::spec_encode(x@) is None,
                TypedBound::Unbounded => false,
            }),
        },
{
    match b {
        TypedBound::Included(x) => match KC::bytes_encode(x) {
            Some(kb) => Ok(ByteBound::Included(kb)),
            None => Err(Error::Encoding),
        },
        TypedBound::Excluded(x) => match KC::bytes_encode(x) {
            Some(kb) => Ok(ByteBound::Excluded(kb)),
            None => Err(Error::Encoding),
        },
        TypedBound::Unbounded => Ok(ByteBound::Unbounded),
    }
}

/// The index where iteration bounded below by `lo` starts: every earlier
/// entry fails the endpoint, and the entry there, if any, satisfies it.
pub fn resolve_lo(tbl: &Tree, lo: &ByteBound) -> (r: usize)
    requires
        tbl.wf(),
    ensures
        0 <= r <= tbl.len_spec(),
        forall|j: int| 0 <= j < r ==> !lo_ok(lo@, tbl.key_at(j)),
        (r as int) < tbl.len_spec() ==> lo_ok(lo@, tbl.key_at(r as int)),
{
    match lo {
        ByteBound::Unbounded => 0,
        ByteBound::Included(s) => {
            let i = tbl.seek(s.as_slice());
            proof {
                assert forall|j: int| 0 <= j < i implies !lo_ok(lo@, tbl.key_at(j)) by {
                    crate::bytes::lemma_lex_lt_asym(tbl.key_at(j), s@);
                    crate::bytes::lemma_lex_lt_irrefl(s@);
                }
            }
            i
        },
        ByteBound::Excluded(s) => {
            let i = tbl.seek(s.as_slice());
            let n = tbl.count();
            let mut r = i;
            if i < n {
                let pair = tbl.pair_at(i);
                if !bytes_lt(s.as_slice(), pair.0.as_slice()) {
                    r = i + 1;
                    proof {
                        crate::bytes::lemma_lex_lt_trichotomy(s@, tbl.key_at(i as int));
                        assert(tbl.key_at(i as int) == s@);
                        crate::bytes::lemma_lex_lt_irrefl(s@);
                        if (r as int) < tbl.len_spec() {
                            assert(lex_lt(tbl.key_at(i as int), tbl.key_at(r as int)));
                        }
                    }
                }
            }
            proof {
                assert forall|j: int| 0 <= j < r implies !lo_ok(lo@, tbl.key_at(j)) by {
                    if j < i {
                        crate::bytes::lemma_lex_lt_asym(tbl.key_at(j), s@);
                    } else {
                        crate::bytes::lemma_lex_lt_irrefl(s@);
                    }
                }
            }
            r
        },
    }
}

/// The index just past where iteration bounded above by `hi` starts when
/// walking backward: every entry from there on fails the endpoint, and the
/// entry just before, if any, satisfies it.
pub fn resolve_hi_rev(tbl: &Tree, hi: &ByteBound) -> (r: usize)
    requires
        tbl.wf(),
    ensures
        0 <= r <= tbl.len_spec(),
        forall|j: int| r <= j < tbl.len_spec() ==> !hi_ok(hi@, tbl.key_at(j)),
        r > 0 ==> hi_ok(hi@, tbl.key_at(r as int - 1)),
{
    match hi {
        ByteBound::Unbounded => tbl.count(),
        ByteBound::Included(s) => {
            let i = tbl.seek(s.as_slice());
            let n = tbl.count();
            let mut r = i;
            if i < n {
                let pair = tbl.pair_at(i);
                if !bytes_lt(s.as_slice(), pair.0.as_slice()) {
                    r = i + 1;
                    proof {
                        crate::bytes::lemma_lex_lt_trichotomy(s@, tbl.key_at(i as int));
                        assert(tbl.key_at(i as int) == s@);
                    }
                }
            }
            proof {
                assert forall|j: int| r <= j < tbl.len_spec() implies !hi_ok(hi@, tbl.key_at(
                    j,
                )) by {
                    if (i as int) < tbl.len_spec() && r == i + 1 {
                        if j > i {
                            assert(lex_lt(tbl.key_at(i as int), tbl.key_at(j)));
                            crate::bytes::lemma_lex_lt_asym(tbl.key_at(j), s@);
                            crate::bytes::lemma_lex_lt_irrefl(tbl.key_at(j));
                        }
                    } else {
                        crate::bytes::lemma_lex_lt_trichotomy(s@, tbl.key_at(i as int));
                        assert(lex_lt(s@, tbl.key_at(i as int)));
                        if j > i {
                            crate::bytes::lemma_lex_lt_trans(s@, tbl.key_at(i as int), tbl.key_at(
                                j,
                            ));
                        }
                        crate::bytes::lemma_lex_lt_asym(tbl.key_at(j), s@);
                        crate::bytes::lemma_lex_lt_irrefl(tbl.key_at(j));
                    }
                }
                if r > 0 && r == i + 1 {
                    assert(hi_ok(hi@, tbl.key_at(r as int - 1)));
                }
                if r > 0 && r == i {
                    assert(lex_lt(tbl.key_at(r as int - 1), s@));
                }
            }
            r
        },
        ByteBound::Excluded(s) => {
            let i = tbl.seek(s.as_slice());
            proof {
                assert forall|j: int| i <= j < tbl.len_spec() implies !hi_ok(hi@, tbl.key_at(
                    j,
                )) by {
                    if j > i {
                        assert(lex_lt(tbl.key_at(i as int), tbl.key_at(j)));
                    }
                    crate::bytes::lemma_lex_lt_irrefl(s@);
                    crate::bytes::lemma_lex_lt_asym(s@, tbl.key_at(j));
                    if j > i {
                        crate::bytes::lemma_lex_le_lt_trans(s@, tbl.key_at(i as int), tbl.key_at(
                            j,
                        ));
                    }
                }
            }
            i
        },
    }
}

} // verus!
