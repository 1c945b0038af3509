//! Byte-string helpers shared by the encoder, the canonicalizer and the
//! signer: ASCII lowering, lexicographic byte order (with the lemmas that
//! make it a total order), sorting, prefix tests, and decimal / hex
//! rendering of numbers.
use vstd::prelude::*;
use vstd::multiset::Multiset;
use vstd::relations::{sorted_by, total_ordering};
use vstd::seq_lib::lemma_sorted_unique;
use vstd::string::*;

verus! {

/// The bytes of a text constant (UTF-8).
pub open spec fn txt(s: &str) -> Seq<u8> {
    s.spec_bytes()
}

/// Bytes of a text constant, as an owned vector.
pub fn bytes_of(s: &str) -> (r: Vec<u8>)
    ensures
        r@ == txt(s),
{
    s.as_bytes_vec()
}

/// Appends one byte string to another.
pub fn append_bytes(out: &mut Vec<u8>, piece: &Vec<u8>)
    ensures
        final(out)@ == old(out)@ + piece@,
{
    out.extend_from_slice(piece.as_slice());
}

/// ASCII lower-casing of one byte.
pub open spec fn lower_byte(b: u8) -> u8 {
    if 65 <= b <= 90 {
        (b + 32) as u8
    } else {
        b
    }
}

/// ASCII lower-casing of a byte string.
pub open spec fn lower_bytes(s: Seq<u8>) -> Seq<u8> {
    s.map_values(|b: u8| lower_byte(b))
}

pub fn to_lower_bytes(v: &Vec<u8>) -> (r: Vec<u8>)
    ensures
        r@ == lower_bytes(v@),
{
    let mut r: Vec<u8> = Vec::new();
    let mut i: usize = 0;
    while i < v.len()
        invariant
            i <= v.len(),
            r@ == lower_bytes(v@.take(i as int)),
        decreases v.len() - i,
    {
        let b = v[i];
        if 65 <= b && b <= 90 {
            r.push(b + 32);
        } else {
            r.push(b);
        }
        proof {
            assert(lower_bytes(v@.take(i + 1)) =~= lower_bytes(v@.take(i as int)).push(
                lower_byte(v@[i as int]),
            ));
        }
        i = i + 1;
    }
    proof {
        assert(v@.take(v@.len() as int) =~= v@);
    }
    r
}

/// A byte-for-byte copy of a byte string.
pub fn copy_bytes(v: &Vec<u8>) -> (r: Vec<u8>)
    ensures
        r@ == v@,
{
    let mut r: Vec<u8> = Vec::new();
    append_bytes(&mut r, v);
    proof {
        assert(r@ =~= v@);
    }
    r
}

/// Byte-for-byte equality of two byte strings.
pub fn bytes_eq(a: &Vec<u8>, b: &Vec<u8>) -> (r: bool)
    ensures
        r == (a@ == b@),
{
    if a.len() != b.len() {
        return false;
    }
    let mut i: usize = 0;
    while i < a.len()
        invariant
            i <= a.len() == b.len(),
            forall|j: int| 0 <= j < i ==> a@[j] == b@[j],
        decreases a.len() - i,
    {
        if a[i] != b[i] {
            return false;
        }
        i = i + 1;
    }
    proof {
        assert(a@ =~= b@);
    }
    true
}

/// Whether `p` is a prefix of `s`.
pub open spec fn has_prefix(s: Seq<u8>, p: Seq<u8>) -> bool {
    p.len() <= s.len() && s.take(p.len() as int) == p
}

pub fn bytes_has_prefix(s: &Vec<u8>, p: &Vec<u8>) -> (r: bool)
    ensures
        r == has_prefix(s@, p@),
{
    if p.len() > s.len() {
        return false;
    }
    let mut i: usize = 0;
    while i < p.len()
        invariant
            i <= p.len() <= s.len(),
            forall|j: int| 0 <= j < i ==> s@[j] == p@[j],
        decreases p.len() - i,
    {
        if s[i] != p[i] {
            proof {
                assert(s@.take(p@.len() as int)[i as int] != p@[i as int]);
            }
            return false;
        }
        i = i + 1;
    }
    proof {
        assert(s@.take(p@.len() as int) =~= p@);
    }
    true
}

/// Lexicographic (byte-wise) order on byte strings: the order used for
/// canonical headers and for canonical query strings.
pub open spec fn lex_le(a: Seq<u8>, b: Seq<u8>) -> bool
    decreases a.len(),
{
    if a.len() == 0 {
        true
    } else if b.len() == 0 {
        false
    } else if a[0] < b[0] {
        true
    } else if a[0] > b[0] {
        false
    } else {
        lex_le(a.drop_first(), b.drop_first())
    }
}

/// `lex_le` as a binary relation value, for `sort_by` and `sorted_by`.
pub open spec fn lex_leq() -> spec_fn(Seq<u8>, Seq<u8>) -> bool {
    |a: Seq<u8>, b: Seq<u8>| lex_le(a, b)
}

pub proof fn lemma_lex_le_connected(a: Seq<u8>, b: Seq<u8>)
    ensures
        lex_le(a, b) || lex_le(b, a),
    decreases a.len(),
{
    if a.len() != 0 && b.len() != 0 && a[0] == b[0] {
        lemma_lex_le_connected(a.drop_first(), b.drop_first());
    }
}

pub proof fn lemma_lex_le_antisymmetric(a: Seq<u8>, b: Seq<u8>)
    requires
        lex_le(a, b),
        lex_le(b, a),
    ensures
        a == b,
    decreases a.len(),
{
    if a.len() == 0 {
        assert(a =~= b);
    } else {
        lemma_lex_le_antisymmetric(a.drop_first(), b.drop_first());
        assert(a =~= seq![a[0]] + a.drop_first());
        assert(b =~= seq![b[0]] + b.drop_first());
    }
}

pub proof fn lemma_lex_le_transitive(a: Seq<u8>, b: Seq<u8>, c: Seq<u8>)
    requires
        lex_le(a, b),
        lex_le(b, c),
    ensures
        lex_le(a, c),
    decreases a.len(),
{
    if a.len() != 0 && b.len() != 0 && c.len() != 0 && a[0] == b[0] && b[0] == c[0] {
        lemma_lex_le_transitive(a.drop_first(), b.drop_first(), c.drop_first());
    }
}

pub proof fn lemma_lex_total_ordering()
    ensures
        total_ordering(lex_leq()),
{
    assert forall|a: Seq<u8>, b: Seq<u8>| #[trigger] lex_leq()(a, b) || #[trigger] lex_leq()(b, a) by {
        lemma_lex_le_connected(a, b);
    }
    assert forall|a: Seq<u8>, b: Seq<u8>| #[trigger] lex_leq()(a, b) && #[trigger] lex_leq()(b, a)
        implies a == b by {
        lemma_lex_le_antisymmetric(a, b);
    }
    assert forall|a: Seq<u8>, b: Seq<u8>, c: Seq<u8>|
        #[trigger] lex_leq()(a, b) && #[trigger] lex_leq()(b, c) implies lex_leq()(a, c) by {
        lemma_lex_le_transitive(a, b, c);
    }
}

/// Byte-wise comparison of the suffixes of `a` and `b` that start at `i`.
fn lex_le_from(a: &Vec<u8>, b: &Vec<u8>, i: usize) -> (r: bool)
    requires
        i <= a.len(),
        i <= b.len(),
    ensures
        r == lex_le(a@.skip(i as int), b@.skip(i as int)),
    decreases a.len() - i,
{
    if i == a.len() {
        true
    } else if i == b.len() {
        false
    } else if a[i] < b[i] {
        true
    } else if a[i] > b[i] {
        false
    } else {
        let r = lex_le_from(a, b, i + 1);
        proof {
            assert(a@.skip(i as int).drop_first() =~= a@.skip(i + 1));
            assert(b@.skip(i as int).drop_first() =~= b@.skip(i + 1));
        }
        r
    }
}

pub fn lex_le_bytes(a: &Vec<u8>, b: &Vec<u8>) -> (r: bool)
    ensures
        r == lex_le(a@, b@),
{
    let r = lex_le_from(a, b, 0);
    proof {
        assert(a@.skip(0) =~= a@);
        assert(b@.skip(0) =~= b@);
    }
    r
}

/// The views of a vector of byte strings.
pub open spec fn views(v: Seq<Vec<u8>>) -> Seq<Seq<u8>> {
    v.map_values(|x: Vec<u8>| x@)
}

/// Inserting an element anywhere inserts it into the multiset.
pub proof fn lemma_insert_to_multiset<A>(s: Seq<A>, k: int, x: A)
    requires
        0 <= k <= s.len(),
    ensures
        s.insert(k, x).to_multiset() =~= s.to_multiset().insert(x),
{
    broadcast use vstd::seq_lib::group_to_multiset_ensures;

    assert(s.insert(k, x) =~= s.take(k) + (seq![x] + s.skip(k)));
    vstd::seq_lib::lemma_multiset_commutative(s.take(k), seq![x] + s.skip(k));
    vstd::seq_lib::lemma_multiset_commutative(seq![x], s.skip(k));
    assert(seq![x] =~= Seq::<A>::empty().push(x));
    assert(seq![x].to_multiset() =~= Multiset::<A>::empty().insert(x));
    assert(s =~= s.take(k) + s.skip(k));
    vstd::seq_lib::lemma_multiset_commutative(s.take(k), s.skip(k));
}

/// Sorts byte strings in ascending lexicographic order.
pub fn sort_bytes(v: Vec<Vec<u8>>) -> (r: Vec<Vec<u8>>)
    ensures
        views(r@) == views(v@).sort_by(lex_leq()),
{
    broadcast use {vstd::seq_lib::group_to_multiset_ensures, vstd::multiset::group_multiset_axioms};

    proof {
        lemma_lex_total_ordering();
    }
    let ghost orig = views(v@);
    let mut rest = v;
    let mut out: Vec<Vec<u8>> = Vec::new();
    while rest.len() > 0
        invariant
            sorted_by(views(out@), lex_leq()),
            views(out@).to_multiset().add(views(rest@).to_multiset()) =~= orig.to_multiset(),
        decreases rest.len(),
    {
        let ghost rest0 = views(rest@);
        let x = rest.remove(0);
        proof {
            assert(views(rest@) =~= rest0.remove(0));
            vstd::seq_lib::to_multiset_remove(rest0, 0);
            assert(rest0.contains(rest0[0]));
            vstd::seq_lib::to_multiset_contains(rest0, rest0[0]);
            assert(rest0.to_multiset().count(rest0[0]) > 0);
        }
        let ghost pre = views(out@);
        let mut k: usize = 0;
        while k < out.len() && lex_le_bytes(&out[k], &x)
            invariant
                k <= out.len(),
                views(out@) == pre,
                forall|j: int| 0 <= j < k ==> lex_le(pre[j], x@),
            decreases out.len() - k,
        {
            k = k + 1;
        }
        let ghost kk = k as int;
        let ghost n = pre.len() as int;
        proof {
            assert(kk < n ==> !lex_le(pre[kk], x@));
        }
        out.insert(k, x);
        proof {
            let post = views(out@);
            pre.insert_ensures(kk, x@);
            assert(post =~= pre.insert(kk, x@));
            assert forall|i: int, j: int| 0 <= i < j < post.len() implies #[trigger] lex_leq()(
                post[i],
                post[j],
            ) by {
                if i > kk {
                    assert(pre.insert(kk, x@)[(i - 1) + 1] == pre[i - 1]);
                }
                if j > kk {
                    assert(pre.insert(kk, x@)[(j - 1) + 1] == pre[j - 1]);
                }
                if j < kk {
                    assert(lex_leq()(pre[i], pre[j]));
                } else if j == kk {
                    assert(lex_le(pre[i], x@));
                } else if i == kk {
                    lemma_lex_le_connected(pre[kk], x@);
                    if j - 1 > kk {
                        assert(lex_leq()(pre[kk], pre[j - 1]));
                        lemma_lex_le_transitive(x@, pre[kk], pre[j - 1]);
                    }
                } else if i < kk {
                    assert(lex_leq()(pre[i], pre[j - 1]));
                } else {
                    assert(lex_leq()(pre[i - 1], pre[j - 1]));
                }
            }
            lemma_insert_to_multiset(pre, kk, x@);
            assert(views(out@).to_multiset().add(views(rest@).to_multiset())
                =~= orig.to_multiset());
        }
    }
    proof {
        assert(views(rest@) =~= Seq::<Seq<u8>>::empty());
        assert(views(rest@).to_multiset() =~= Multiset::<Seq<u8>>::empty());
        assert(views(out@).to_multiset() =~= orig.to_multiset());
        orig.lemma_sort_by_ensures(lex_leq());
        lemma_sorted_unique(views(out@), orig.sort_by(lex_leq()), lex_leq());
    }
    out
}

/// Decimal digits of a number, most significant first.
pub open spec fn dec_rep(n: nat) -> Seq<u8>
    decreases n,
{
    if n < 10 {
        seq![(48 + n) as u8]
    } else {
        dec_rep(n / 10) + seq![(48 + n % 10) as u8]
    }
}

/// Appends the decimal rendering of `n`.
pub fn push_decimal(out: &mut Vec<u8>, n: u64)
    ensures
        final(out)@ == old(out)@ + dec_rep(n as nat),
    decreases n,
{
    if n < 10 {
        out.push(48 + n as u8);
    } else {
        push_decimal(out, n / 10);
        out.push(48 + (n % 10) as u8);
    }
}

/// One hexadecimal digit (upper case), for `d < 16`.
pub open spec fn hex_digit(d: u8) -> u8 {
    if d < 10 {
        (48 + d) as u8
    } else {
        (55 + d) as u8
    }
}

/// Upper-case hexadecimal rendering of a byte string, two digits per byte.
pub open spec fn hex_upper(bs: Seq<u8>) -> Seq<u8>
    decreases bs.len(),
{
    if bs.len() == 0 {
        Seq::empty()
    } else {
        hex_upper(bs.drop_last()) + seq![hex_digit(bs.last() / 16), hex_digit(bs.last() % 16)]
    }
}

pub fn to_hex_upper(data: &Vec<u8>) -> (r: Vec<u8>)
    ensures
        r@ == hex_upper(data@),
{
    let mut r: Vec<u8> = Vec::new();
    let mut i: usize = 0;
    while i < data.len()
        invariant
            i <= data.len(),
            r@ == hex_upper(data@.take(i as int)),
        decreases data.len() - i,
    {
        let b = data[i];
        let hi = b / 16;
        let lo = b % 16;
        r.push(if hi < 10 { 48 + hi } else { 55 + hi });
        r.push(if lo < 10 { 48 + lo } else { 55 + lo });
        proof {
            assert(data@.take(i + 1).drop_last() =~= data@.take(i as int));
            assert(data@.take(i + 1).last() == data@[i as int]);
        }
        i = i + 1;
    }
    proof {
        assert(data@.take(data@.len() as int) =~= data@);
    }
    r
}

} // verus!
