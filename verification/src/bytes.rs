//! Byte-lexicographic order on keys, and the key arithmetic used by prefix
//! and bounded iteration.

use vstd::prelude::*;

verus! {

/// Strict lexicographic order on byte strings: `a` comes first when, at the
/// first differing position, it holds the smaller byte, or when it is a
/// strict prefix of `b`.
pub open spec fn lex_lt(a: Seq<u8>, b: Seq<u8>) -> bool
    decreases a.len(),
{
    if b.len() == 0 {
        false
    } else if a.len() == 0 {
        true
    } else if a[0] < b[0] {
        true
    } else if a[0] == b[0] {
        lex_lt(a.skip(1), b.skip(1))
    } else {
        false
    }
}

/// Non-strict lexicographic order.
pub open spec fn lex_le(a: Seq<u8>, b: Seq<u8>) -> bool {
    lex_lt(a, b) || a == b
}

/// `p` is a prefix of `k`.
pub open spec fn is_prefix(p: Seq<u8>, k: Seq<u8>) -> bool {
    p.len() <= k.len() && k.take(p.len() as int) == p
}

pub proof fn lemma_lex_lt_irrefl(a: Seq<u8>)
    ensures
        !lex_lt(a, a),
    decreases a.len(),
{
    if a.len() > 0 {
        lemma_lex_lt_irrefl(a.skip(1));
    }
}

pub proof fn lemma_lex_lt_asym(a: Seq<u8>, b: Seq<u8>)
    ensures
        !(lex_lt(a, b) && lex_lt(b, a)),
    decreases a.len(),
{
    if a.len() > 0 && b.len() > 0 && a[0] == b[0] {
        lemma_lex_lt_asym(a.skip(1), b.skip(1));
    }
}

/// Any two byte strings are ordered or equal.
pub proof fn lemma_lex_lt_trichotomy(a: Seq<u8>, b: Seq<u8>)
    ensures
        lex_lt(a, b) || lex_lt(b, a) || a == b,
    decreases a.len(),
{
    if a.len() > 0 && b.len() > 0 && a[0] == b[0] {
        lemma_lex_lt_trichotomy(a.skip(1), b.skip(1));
        if !lex_lt(a, b) && !lex_lt(b, a) {
            assert(a.skip(1) == b.skip(1));
            assert(a.len() == b.len());
            assert forall|i: int| 0 <= i < a.len() implies a[i] == b[i] by {
                if i > 0 {
                    assert(a[i] == a.skip(1)[i - 1]);
                    assert(b[i] == b.skip(1)[i - 1]);
                }
            }
            assert(a =~= b);
        }
    }
}

pub proof fn lemma_lex_lt_trans(a: Seq<u8>, b: Seq<u8>, c: Seq<u8>)
    requires
        lex_lt(a, b),
        lex_lt(b, c),
    ensures
        lex_lt(a, c),
    decreases a.len(),
{
    if a.len() > 0 && b.len() > 0 && c.len() > 0 {
        if a[0] == b[0] && b[0] == c[0] {
            lemma_lex_lt_trans(a.skip(1), b.skip(1), c.skip(1));
        }
    }
}

pub proof fn lemma_lex_le_trans(a: Seq<u8>, b: Seq<u8>, c: Seq<u8>)
    requires
        lex_le(a, b),
        lex_le(b, c),
    ensures
        lex_le(a, c),
{
    if lex_lt(a, b) && lex_lt(b, c) {
        lemma_lex_lt_trans(a, b, c);
    }
}

pub proof fn lemma_lex_lt_le_trans(a: Seq<u8>, b: Seq<u8>, c: Seq<u8>)
    requires
        lex_lt(a, b),
        lex_le(b, c),
    ensures
        lex_lt(a, c),
{
    if lex_lt(b, c) {
        lemma_lex_lt_trans(a, b, c);
    }
}

pub proof fn lemma_lex_le_lt_trans(a: Seq<u8>, b: Seq<u8>, c: Seq<u8>)
    requires
        lex_le(a, b),
        lex_lt(b, c),
    ensures
        lex_lt(a, c),
{
    if lex_lt(a, b) {
        lemma_lex_lt_trans(a, b, c);
    }
}

/// Comparing two byte strings that agree on their first `i` bytes reduces to
/// comparing what remains.
pub proof fn lemma_lex_lt_common_prefix(a: Seq<u8>, b: Seq<u8>, i: int)
    requires
        0 <= i <= a.len(),
        i <= b.len(),
        forall|j: int| 0 <= j < i ==> a[j] == b[j],
    ensures
        lex_lt(a, b) <==> lex_lt(a.skip(i), b.skip(i)),
    decreases i,
{
    if i > 0 {
        assert(a.len() > 0 && b.len() > 0 && a[0] == b[0]);
        assert(lex_lt(a, b) <==> lex_lt(a.skip(1), b.skip(1)));
        assert(forall|j: int| 0 <= j < i - 1 ==> a.skip(1)[j] == b.skip(1)[j]);
        lemma_lex_lt_common_prefix(a.skip(1), b.skip(1), i - 1);
        assert(a.skip(1).skip(i - 1) =~= a.skip(i));
        assert(b.skip(1).skip(i - 1) =~= b.skip(i));
    } else {
        assert(a.skip(0) =~= a);
        assert(b.skip(0) =~= b);
    }
}

/// The outcome of a three-way byte-string comparison.
#[derive(Clone, Copy, PartialEq, Eq, Structural, Debug)]
pub enum Cmp {
    Lt,
    Eq,
    Gt,
}

/// Three-way comparison of two byte strings in lexicographic order.
pub fn cmp_bytes(a: &[u8], b: &[u8]) -> (r: Cmp)
    ensures
        r is Lt <==> lex_lt(a@, b@),
        r is Eq <==> a@ == b@,
        r is Gt <==> lex_lt(b@, a@),
{
    proof {
        lemma_lex_lt_irrefl(a@);
        lemma_lex_lt_irrefl(b@);
        lemma_lex_lt_asym(a@, b@);
        lemma_lex_lt_trichotomy(a@, b@);
    }
    let a_len: usize = a.len();
    let b_len: usize = b.len();
    let mut i: usize = 0;
    while i < a_len && i < b_len
        invariant
            0 <= i <= a_len,
            i <= b_len,
            a_len == a@.len(),
            b_len == b@.len(),
            forall|j: int| 0 <= j < i ==> a@[j] == b@[j],
        decreases a_len - i,
    {
        let x = a[i];
        let y = b[i];
        if x < y {
            proof {
                lemma_lex_lt_irrefl(a@);
                lemma_lex_lt_asym(a@, b@);
                lemma_lex_lt_common_prefix(a@, b@, i as int);
                assert(a@.skip(i as int)[0] == a@[i as int]);
                assert(b@.skip(i as int)[0] == b@[i as int]);
                assert(lex_lt(a@.skip(i as int), b@.skip(i as int)));
            }
            return Cmp::Lt;
        }
        if x > y {
            proof {
                lemma_lex_lt_irrefl(b@);
                lemma_lex_lt_asym(a@, b@);
                lemma_lex_lt_common_prefix(b@, a@, i as int);
                assert(a@.skip(i as int)[0] == a@[i as int]);
                assert(b@.skip(i as int)[0] == b@[i as int]);
                assert(lex_lt(b@.skip(i as int), a@.skip(i as int)));
            }
            return Cmp::Gt;
        }
        i = i + 1;
    }
    if a_len == b_len {
        proof {
            assert(a@ =~= b@);
        }
        Cmp::Eq
    } else if a_len < b_len {
        proof {
            lemma_lex_lt_common_prefix(a@, b@, a_len as int);
            assert(a@.skip(a_len as int) =~= Seq::<u8>::empty());
        }
        Cmp::Lt
    } else {
        proof {
            lemma_lex_lt_common_prefix(b@, a@, b_len as int);
            assert(b@.skip(b_len as int) =~= Seq::<u8>::empty());
        }
        Cmp::Gt
    }
}

/// Whether `lex_lt(a, b)` holds, as a single boolean.
pub fn bytes_lt(a: &[u8], b: &[u8]) -> (r: bool)
    ensures
        r == lex_lt(a@, b@),
{
    matches!(cmp_bytes(a, b), Cmp::Lt)
}

/// Whether `lex_le(a, b)` holds, as a single boolean.
pub fn bytes_le(a: &[u8], b: &[u8]) -> (r: bool)
    ensures
        r == lex_le(a@, b@),
{
    !matches!(cmp_bytes(a, b), Cmp::Gt)
}

/// Whether `p` is a prefix of `k`.
pub fn has_prefix(k: &[u8], p: &[u8]) -> (r: bool)
    ensures
        r == is_prefix(p@, k@),
{
    let p_len: usize = p.len();
    if p_len > k.len() {
        return false;
    }
    let mut i: usize = 0;
    while i < p_len
        invariant
            0 <= i <= p_len,
            p_len == p@.len(),
            p_len <= k@.len(),
            forall|j: int| 0 <= j < i ==> k@[j] == p@[j],
        decreases p_len - i,
    {
        if k[i] != p[i] {
            assert(k@.take(p@.len() as int)[i as int] != p@[i as int]);
            return false;
        }
        i = i + 1;
    }
    proof {
        assert(k@.take(p@.len() as int) =~= p@);
    }
    true
}

/// The least key that is strictly above every key carrying the given prefix:
/// trailing `0xFF` bytes are dropped and the last remaining byte is
/// incremented. A prefix of nothing but `0xFF` bytes yields the empty string,
/// which stands for "no finite upper bound".
pub open spec fn advanced_key(p: Seq<u8>) -> Seq<u8>
    decreases p.len(),
{
    if p.len() == 0 {
        Seq::empty()
    } else if p.last() == 255 {
        advanced_key(p.drop_last())
    } else {
        p.drop_last().push((p.last() + 1) as u8)
    }
}

/// Advancing a key works on its tail: the head byte only changes when the
/// whole tail is `0xFF`.
pub proof fn lemma_advanced_cons(b: u8, p: Seq<u8>)
    ensures
        advanced_key(seq![b] + p) == if advanced_key(p).len() == 0 {
            if b == 255 {
                Seq::<u8>::empty()
            } else {
                seq![(b + 1) as u8]
            }
        } else {
            seq![b] + advanced_key(p)
        },
    decreases p.len(),
{
    let bp = seq![b] + p;
    if p.len() == 0 {
        assert(bp =~= seq![b]);
        assert(bp.last() == b);
        assert(bp.drop_last() =~= Seq::<u8>::empty());
        if b == 255 {
            assert(advanced_key(bp) == advanced_key(bp.drop_last()));
            assert(advanced_key(Seq::<u8>::empty()) =~= Seq::<u8>::empty());
            assert(advanced_key(bp) =~= Seq::<u8>::empty());
        } else {
            assert(advanced_key(bp) == bp.drop_last().push((b + 1) as u8));
            assert(advanced_key(bp) =~= seq![(b + 1) as u8]);
        }
    } else {
        assert(bp.last() == p.last());
        assert(bp.drop_last() =~= seq![b] + p.drop_last());
        if p.last() == 255 {
            lemma_advanced_cons(b, p.drop_last());
            assert(advanced_key(bp) == advanced_key(seq![b] + p.drop_last()));
            assert(advanced_key(p) == advanced_key(p.drop_last()));
        } else {
            assert(advanced_key(bp) == bp.drop_last().push((bp.last() + 1) as u8));
            assert(advanced_key(p) == p.drop_last().push((p.last() + 1) as u8));
            assert(advanced_key(p).len() > 0);
            assert(advanced_key(bp) =~= seq![b] + advanced_key(p));
        }
    }
}

/// The keys carrying a prefix are exactly those between the prefix itself
/// and its advanced form: prefix iteration visits precisely the keys with
/// that prefix. A prefix of nothing but `0xFF` bytes advances to the empty
/// key, and its carriers are then every key from the prefix to the end of
/// the keyspace.
pub proof fn lemma_prefix_range(p: Seq<u8>, k: Seq<u8>)
    ensures
        is_prefix(p, k) <==> (lex_le(p, k) && (advanced_key(p).len() == 0 || lex_lt(
            k,
            advanced_key(p),
        ))),
    decreases p.len(),
{
    if p.len() == 0 {
        assert(p =~= Seq::<u8>::empty());
        assert(k.take(0) =~= Seq::<u8>::empty());
        assert(is_prefix(p, k));
        assert(advanced_key(p).len() == 0);
        if k.len() == 0 {
            assert(p =~= k);
        }
    } else if k.len() == 0 {
        assert(!is_prefix(p, k));
        assert(!lex_lt(p, k));
        assert(p != k);
    } else {
        let b = p[0];
        let c = k[0];
        let pr = p.skip(1);
        let kr = k.skip(1);
        assert(p =~= seq![b] + pr);
        assert(k =~= seq![c] + kr);
        lemma_prefix_range(pr, kr);
        lemma_advanced_cons(b, pr);
        let ap = advanced_key(p);
        let apr = advanced_key(pr);

        // The prefix relation steps through the first byte.
        assert(is_prefix(p, k) <==> (b == c && is_prefix(pr, kr))) by {
            if is_prefix(p, k) {
                assert(k.take(p.len() as int)[0] == c);
                assert(p[0] == b);
                assert(kr.take(pr.len() as int) =~= pr) by {
                    assert(forall|m: int|
                        0 <= m < pr.len() ==> kr.take(pr.len() as int)[m] == k[m + 1]);
                    assert(forall|m: int|
                        0 <= m < pr.len() ==> #[trigger] pr[m] == p[m + 1] && p[m + 1] == k.take(
                            p.len() as int,
                        )[m + 1]);
                }
            }
            if b == c && is_prefix(pr, kr) {
                assert(k.take(p.len() as int) =~= p) by {
                    assert(forall|m: int|
                        0 < m < p.len() ==> #[trigger] k.take(p.len() as int)[m] == kr[m - 1]
                            && kr.take(pr.len() as int)[m - 1] == kr[m - 1] && pr[m - 1] == p[m]);
                }
            }
        }
        // The orderings step through the first byte too.
        assert(lex_le(p, k) <==> (b < c || (b == c && lex_le(pr, kr)))) by {
            if p == k {
                assert(pr =~= kr);
            }
            if b == c && pr == kr {
                assert(p =~= k);
            }
        }
        if b == c {
            if apr.len() == 0 {
                if b == 255 {
                    assert(ap.len() == 0);
                } else {
                    assert(ap == seq![(b + 1) as u8]);
                    assert(lex_lt(k, ap));
                }
            } else {
                assert(ap == seq![b] + apr);
                assert(ap[0] == b && ap.skip(1) =~= apr);
                assert(lex_lt(k, ap) <==> lex_lt(kr, apr));
            }
        } else if b < c {
            assert(!is_prefix(p, k));
            if apr.len() == 0 {
                if b == 255 {
                    assert(c > 255);
                } else {
                    assert(ap == seq![(b + 1) as u8]);
                    if c == b + 1 {
                        assert(ap[0] == c);
                        assert(ap.skip(1) =~= Seq::<u8>::empty());
                        assert(k.skip(1) =~= kr);
                        assert(!lex_lt(kr, Seq::<u8>::empty()));
                        assert(!lex_lt(k, ap));
                    } else {
                        assert(ap[0] < c);
                        assert(!lex_lt(k, ap));
                    }
                    assert(ap.len() > 0);
                }
            } else {
                assert(ap == seq![b] + apr);
                assert(ap[0] == b);
                assert(!lex_lt(k, ap));
                assert(ap.len() > 0);
            }
        } else {
            assert(!is_prefix(p, k));
            assert(!lex_le(p, k));
        }
    }
}

/// The bound used when an exclusive end key must be turned into an inclusive
/// one for backward iteration: trailing zero bytes are dropped and the last
/// remaining byte is decremented. An all-zero key yields the empty string.
pub open spec fn retreated_key(p: Seq<u8>) -> Seq<u8>
    decreases p.len(),
{
    if p.len() == 0 {
        Seq::empty()
    } else if p.last() == 0 {
        retreated_key(p.drop_last())
    } else {
        p.drop_last().push((p.last() - 1) as u8)
    }
}

/// In-place form of [`advanced_key`].
pub fn advance_key(bytes: &mut Vec<u8>)
    ensures
        final(bytes)@ == advanced_key(old(bytes)@),
{
    loop
        invariant
            advanced_key(bytes@) == advanced_key(old(bytes)@),
        decreases bytes@.len(),
    {
        let n: usize = bytes.len();
        if n == 0 {
            return ;
        }
        let last = bytes[n - 1];
        if last == 255 {
            bytes.pop();
        } else {
            bytes.pop();
            bytes.push(last + 1);
            return ;
        }
    }
}

/// In-place form of [`retreated_key`].
pub fn retreat_key(bytes: &mut Vec<u8>)
    ensures
        final(bytes)@ == retreated_key(old(bytes)@),
{
    loop
        invariant
            retreated_key(bytes@) == retreated_key(old(bytes)@),
        decreases bytes@.len(),
    {
        let n: usize = bytes.len();
        if n == 0 {
            return ;
        }
        let last = bytes[n - 1];
        if last == 0 {
            bytes.pop();
        } else {
            bytes.pop();
            bytes.push(last - 1);
            return ;
        }
    }
}

} // verus!
